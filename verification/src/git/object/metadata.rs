//! An object together with its identity, and the two forms in which a single
//! object is written: as an entry of a pack and as a loose object.

use vstd::prelude::*;
use vstd::slice::slice_subrange;
use crate::errors::{ErrorView, GitError};
use crate::git::hash;
use crate::git::hash::HashType;
use crate::git::object::types::{keyword_type, type_number, ObjectType};
use crate::git::object::{decimal, header_bytes, object_hash, object_header, Object};
use crate::utils::{
    find_byte, first_at_or_after, known_type_code, read_zlib_stream_exact, type_and_size_at, varint_tail,
    zlib_compress, zlib_deflate, zlib_stream_at,
};

verus! {

/// The model of an object with its identity.
pub struct MetadataView {
    pub t: ObjectType,
    pub id: Seq<u8>,
    pub size: nat,
    pub data: Seq<u8>,
}

/// An object with its identity: its type, the kind of its hash, its hash, the
/// length of its contents and the contents.
#[derive(Debug, Clone)]
pub struct Metadata {
    pub t: ObjectType,
    pub h: HashType,
    pub id: hash::Hash,
    pub size: usize,
    pub data: Vec<u8>,
}

impl View for Metadata {
    type V = MetadataView;

    open spec fn view(&self) -> MetadataView {
        MetadataView { t: self.t, id: self.id@, size: self.size as nat, data: self.data@ }
    }
}

/// The object of type `t` with contents `data`, with its identity.
pub open spec fn metadata_of(t: ObjectType, data: Seq<u8>) -> MetadataView {
    MetadataView { t, id: object_hash(t, data), size: data.len(), data }
}

/// The bytes that continue a size behind the first byte of an entry header:
/// seven bits each, the low ones first, every byte but the last with its high
/// bit set.
pub open spec fn size_tail(rest: nat) -> Seq<u8>
    decreases rest,
{
    if rest < 128 {
        seq![rest as u8]
    } else {
        seq![(128 + rest % 128) as u8] + size_tail(rest / 128)
    }
}

/// The header of a pack entry as it is written here: the first byte holds the
/// type code and the low four bits of the size and always announces a further
/// byte; the rest of the size follows.
pub open spec fn entry_header(code: u8, size: nat) -> Seq<u8> {
    seq![(128 + code * 16 + size % 16) as u8] + size_tail(size / 16)
}

/// Whether a byte string is a decimal number as an object header spells it:
/// digits only, at least one, and no leading zero before another digit.
pub open spec fn is_decimal(digits: Seq<u8>) -> bool {
    &&& digits.len() >= 1
    &&& forall|i: int| 0 <= i < digits.len() ==> 48 <= #[trigger] digits[i] <= 57
    &&& digits.len() > 1 ==> digits[0] != 48
}

/// The number that decimal digits spell.
pub open spec fn decimal_value(digits: Seq<u8>) -> nat
    decreases digits.len(),
{
    if digits.len() == 0 {
        0
    } else {
        (decimal_value(digits.drop_last()) * 10 + (digits.last() - 48)) as nat
    }
}

/// What parsing the unpacked bytes of a loose object yields: the keyword up
/// to the first space names the type, the digits up to the first NUL spell
/// the length, and exactly that many bytes of contents follow.
pub open spec fn parse_loose(bytes: Seq<u8>) -> Result<MetadataView, ErrorView> {
    match (first_at_or_after(bytes, 0, 0x20u8), first_at_or_after(bytes, 0, 0u8)) {
        (Some(space), Some(nul)) => if nul <= space {
            Err(ErrorView::MalformedHeader)
        } else {
            let digits = bytes.subrange(space + 1, nul);
            let data = bytes.subrange(nul + 1, bytes.len() as int);
            if !is_decimal(digits) || decimal_value(digits) > usize::MAX {
                Err(ErrorView::MalformedHeader)
            } else {
                match keyword_type(bytes.subrange(0, space)) {
                    None => Err(ErrorView::InvalidObjectType),
                    Some(t) => if data.len() != decimal_value(digits) {
                        Err(ErrorView::CorruptObject)
                    } else {
                        Ok(metadata_of(t, data))
                    },
                }
            }
        },
        _ => Err(ErrorView::MalformedHeader),
    }
}

/// What reading a loose object yields: the file is one zlib stream that
/// unpacks to the header and the contents.
pub open spec fn loose_object_spec(stream: Seq<u8>) -> Result<MetadataView, ErrorView> {
    match zlib_stream_at(stream, 0) {
        Err(e) => Err(e),
        Ok((bytes, _)) => parse_loose(bytes),
    }
}

/// The bytes that continue a size read back as the size they were written
/// from, whatever stands before and behind them.
pub proof fn lemma_size_tail_reads_back(
    before: Seq<u8>,
    rest: nat,
    after: Seq<u8>,
    weight: nat,
    acc: nat,
)
    requires
        acc + rest * weight <= u64::MAX,
    ensures
        varint_tail(before + size_tail(rest) + after, before.len() as int, weight, acc) == Ok::<
            _,
            ErrorView,
        >(((acc + rest * weight) as u64, (before.len() + size_tail(rest).len()) as int)),
    decreases rest,
{
    let data = before + size_tail(rest) + after;
    let pos = before.len() as int;
    assert(data[pos] == size_tail(rest)[0]);
    if rest < 128 {
        assert(rest % 128 == rest);
    } else {
        let b = (128 + rest % 128) as u8;
        assert(data[pos] == b);
        assert(b % 128 == rest % 128);
        let low = rest % 128;
        let high = rest / 128;
        assert(low * weight + high * (weight * 128) == rest * weight) by (nonlinear_arith)
            requires
                rest == 128 * high + low,
        ;
        assert(low * weight <= rest * weight) by (nonlinear_arith)
            requires
                low <= rest,
        ;
        let sum = acc + low * weight;
        lemma_size_tail_reads_back(before.push(b), high, after, weight * 128, sum as nat);
        assert(before.push(b) + size_tail(high) + after =~= data);
    }
}

/// The header of a pack entry reads back as the type code and the size that
/// it was written from.
pub proof fn lemma_entry_header_reads_back(code: u8, size: nat, after: Seq<u8>)
    requires
        known_type_code(code),
        size <= u64::MAX,
    ensures
        type_and_size_at(entry_header(code, size) + after, 0) == Ok::<_, ErrorView>(
            (code, size as u64, entry_header(code, size).len() as int),
        ),
{
    let first = (128 + code * 16 + size % 16) as u8;
    let data = entry_header(code, size) + after;
    assert(data[0] == first);
    assert(first / 16 % 8 == code);
    assert(first % 16 == size % 16);
    let low = size % 16;
    let high = size / 16;
    assert(low + high * 16 == size);
    lemma_size_tail_reads_back(seq![first], high, after, 16, low);
    assert(seq![first] + size_tail(high) + after =~= data);
}

/// The decimal rendering of a number reads back as that number.
pub proof fn lemma_decimal_reads_back(n: nat)
    ensures
        is_decimal(decimal(n)),
        decimal_value(decimal(n)) == n,
        n >= 1 ==> decimal(n)[0] != 48,
    decreases n,
{
    if n >= 10 {
        lemma_decimal_reads_back(n / 10);
        let head = decimal(n / 10);
        let all = decimal(n);
        assert(all.drop_last() =~= head);
        assert(all.last() == (48 + n % 10) as u8);
        assert(all[0] == head[0]);
        assert forall|i: int| 0 <= i < all.len() implies 48 <= #[trigger] all[i] <= 57 by {
            if i < head.len() {
                assert(all[i] == head[i]);
            }
        }
    } else {
        assert(decimal(n).drop_last() =~= Seq::<u8>::empty());
        assert(decimal(n).last() == (48 + n) as u8);
        assert(decimal_value(Seq::<u8>::empty()) == 0);
    }
}

/// The digits of a number grow with the digits that follow.
proof fn lemma_decimal_value_grows(digits: Seq<u8>, k: int)
    requires
        0 <= k <= digits.len(),
        forall|i: int| 0 <= i < digits.len() ==> 48 <= #[trigger] digits[i] <= 57,
    ensures
        decimal_value(digits.take(k)) <= decimal_value(digits),
    decreases digits.len() - k,
{
    if k < digits.len() {
        lemma_decimal_value_grows(digits, k + 1);
        assert(digits.take(k + 1).drop_last() =~= digits.take(k));
    } else {
        assert(digits.take(k) =~= digits);
    }
}

/// The number that the bytes `data[from..to]` spell in decimal.
fn parse_decimal(data: &[u8], from: usize, to: usize) -> (r: Option<usize>)
    requires
        from <= to <= data@.len(),
    ensures
        r is Some <==> is_decimal(data@.subrange(from as int, to as int)) && decimal_value(
            data@.subrange(from as int, to as int),
        ) <= usize::MAX,
        r matches Some(v) ==> v == decimal_value(data@.subrange(from as int, to as int)),
{
    let ghost digits = data@.subrange(from as int, to as int);
    if from == to {
        return None;
    }
    if to - from > 1 && data[from] == 48 {
        proof {
            assert(digits[0] == 48);
        }
        return None;
    }
    let mut value: usize = 0;
    let mut i: usize = from;
    proof {
        assert(digits.take(0) =~= Seq::<u8>::empty());
    }
    while i < to
        invariant
            from <= i <= to <= data@.len(),
            digits == data@.subrange(from as int, to as int),
            forall|k: int| 0 <= k < i - from ==> 48 <= #[trigger] digits[k] <= 57,
            value == decimal_value(digits.take(i - from)),
        decreases to - i,
    {
        let b = data[i];
        if b < 48 || b > 57 {
            proof {
                assert(digits[i - from] == b);
            }
            return None;
        }
        proof {
            assert(digits[i - from] == b);
            assert(digits.take(i - from + 1).drop_last() =~= digits.take(i - from));
            assert(digits.take(i - from + 1).last() == b);
        }
        let next = match value.checked_mul(10) {
            None => None,
            Some(tens) => tens.checked_add((b - 48) as usize),
        };
        match next {
            None => {
                proof {
                    if is_decimal(digits) {
                        lemma_decimal_value_grows(digits, i - from + 1);
                    }
                }
                return None;
            },
            Some(v) => {
                value = v;
            },
        }
        i += 1;
    }
    proof {
        assert(digits.take(to - from) =~= digits);
    }
    Some(value)
}

impl Metadata {
    /// The object of type `t` with contents `data`, with its identity.
    pub fn new(t: ObjectType, data: &Vec<u8>) -> (m: Metadata)
        ensures
            m@ == metadata_of(t, data@),
    {
        let object = Object { object_type: t, contents: data.clone() };
        let id = object.hash();
        Metadata { t, h: HashType::Sha1, id, size: object.contents.len(), data: object.contents }
    }

    /// The object as an entry of a pack: the header with the type and the
    /// size, and the contents as one zlib stream.
    pub fn convert_to_vec(&self) -> (r: Result<Vec<u8>, GitError>)
        ensures
            r matches Ok(bytes) && bytes@ == entry_header(type_number(self.t), self.size as nat)
                + zlib_deflate(self.data@),
    {
        let code = self.t.type2_number();
        let mut out: Vec<u8> = Vec::new();
        out.push(128 + code * 16 + (self.size % 16) as u8);
        let mut rest = self.size / 16;
        let ghost start = rest;
        while rest >= 128
            invariant
                out@ + size_tail(rest as nat) == seq![
                    (128 + code * 16 + self.size % 16) as u8,
                ] + size_tail(start as nat),
            decreases rest,
        {
            let ghost before = out@;
            out.push(128 + (rest % 128) as u8);
            proof {
                assert(out@ + size_tail((rest / 128) as nat) =~= before + size_tail(rest as nat));
            }
            rest = rest / 128;
        }
        let ghost before = out@;
        out.push(rest as u8);
        proof {
            assert(out@ =~= before + size_tail(rest as nat));
        }
        let packed = zlib_compress(self.data.as_slice());
        out.extend_from_slice(packed.as_slice());
        Ok(out)
    }

    /// The object as a loose object: its header and its contents as one zlib
    /// stream.
    pub fn to_loose(&self) -> (stream: Vec<u8>)
        ensures
            stream@ == zlib_deflate(object_header(self.t, self.data@.len()) + self.data@),
    {
        let mut plain = header_bytes(self.t, self.data.len());
        plain.extend_from_slice(self.data.as_slice());
        proof {
            assert(plain@ =~= object_header(self.t, self.data@.len()) + self.data@);
        }
        zlib_compress(plain.as_slice())
    }

    /// Reads a loose object: unpacks the stream and parses the header in
    /// front of the contents.
    pub fn read_object(stream: &[u8]) -> (r: Result<Metadata, GitError>)
        ensures
            match r {
                Ok(m) => loose_object_spec(stream@) == Ok::<_, ErrorView>(m@),
                Err(e) => loose_object_spec(stream@) == Err::<MetadataView, _>(e@),
            },
    {
        let bytes = match read_zlib_stream_exact(stream, 0) {
            Ok((bytes, _)) => bytes,
            Err(e) => {
                return Err(e);
            },
        };
        Metadata::parse(bytes)
    }

    /// Parses the unpacked bytes of a loose object.
    pub fn parse(bytes: Vec<u8>) -> (r: Result<Metadata, GitError>)
        ensures
            match r {
                Ok(m) => parse_loose(bytes@) == Ok::<_, ErrorView>(m@),
                Err(e) => parse_loose(bytes@) == Err::<MetadataView, _>(e@),
            },
    {
        let all = bytes.as_slice();
        let space = match find_byte(all, 0, 0x20) {
            Some(i) => i,
            None => {
                return Err(GitError::MalformedHeader);
            },
        };
        let nul = match find_byte(all, 0, 0) {
            Some(i) => i,
            None => {
                return Err(GitError::MalformedHeader);
            },
        };
        if nul <= space {
            return Err(GitError::MalformedHeader);
        }
        let size = match parse_decimal(all, space + 1, nul) {
            Some(size) => size,
            None => {
                return Err(GitError::MalformedHeader);
            },
        };
        let t = match ObjectType::from_keyword(all, 0, space) {
            Some(t) => t,
            None => {
                return Err(GitError::InvalidObjectType);
            },
        };
        if all.len() - (nul + 1) != size {
            return Err(GitError::CorruptObject);
        }
        let data = vstd::slice::slice_to_vec(slice_subrange(all, nul + 1, all.len()));
        Ok(Metadata::new(t, &data))
    }
}

impl Object {
    /// The object with its identity.
    pub fn to_metadata(&self) -> (m: Metadata)
        ensures
            m@ == metadata_of(self.object_type, self.contents@),
    {
        Metadata::new(self.object_type, &self.contents)
    }
}

} // verus!
