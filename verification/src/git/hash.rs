//! The 20-byte content digest, its order and its hexadecimal rendering.

use vstd::prelude::*;

verus! {

/// Number of bytes in a digest.
pub const HASH_BYTES: usize = 20;

/// The SHA-1 digest of a byte string, as the `sha1` crate computes it.
pub uninterp spec fn sha1_digest(data: Seq<u8>) -> Seq<u8>;

/// `Digest::digest` of `sha1::Sha1`: the 20-byte SHA-1 digest of `data`.
/// The digest is a function of the bytes alone and is not modelled further.
#[verifier::external_body]
fn sha1_of(data: &[u8]) -> (digest: [u8; 20])
    ensures
        digest@ == sha1_digest(data@),
{
    let out = <sha1::Sha1 as sha1::Digest>::digest(data);
    out.into()
}

/// The sixteen lowercase hexadecimal digits, in order.
pub open spec fn hex_digits() -> Seq<char> {
    seq!['0', '1', '2', '3', '4', '5', '6', '7', '8', '9', 'a', 'b', 'c', 'd', 'e', 'f']
}

/// The lowercase hexadecimal rendering of a byte string: two digits per byte,
/// the high nibble first.
pub open spec fn hex_of(bytes: Seq<u8>) -> Seq<char> {
    Seq::new(
        2 * bytes.len(),
        |i: int|
            hex_digits()[if i % 2 == 0 {
                bytes[i / 2] as int / 16
            } else {
                bytes[i / 2] as int % 16
            }],
    )
}

/// The value of a hexadecimal digit of either case, or -1 for any other
/// character.
pub open spec fn hex_value(c: char) -> int {
    if c == '0' {
        0
    } else if c == '1' {
        1
    } else if c == '2' {
        2
    } else if c == '3' {
        3
    } else if c == '4' {
        4
    } else if c == '5' {
        5
    } else if c == '6' {
        6
    } else if c == '7' {
        7
    } else if c == '8' {
        8
    } else if c == '9' {
        9
    } else if c == 'a' || c == 'A' {
        10
    } else if c == 'b' || c == 'B' {
        11
    } else if c == 'c' || c == 'C' {
        12
    } else if c == 'd' || c == 'D' {
        13
    } else if c == 'e' || c == 'E' {
        14
    } else if c == 'f' || c == 'F' {
        15
    } else {
        -1
    }
}

/// Whether a string is an even number of hexadecimal digits of either case.
pub open spec fn is_hex(s: Seq<char>) -> bool {
    s.len() % 2 == 0 && forall|i: int| 0 <= i < s.len() ==> hex_value(#[trigger] s[i]) >= 0
}

/// Whether a string is made of lowercase hexadecimal digits only.
pub open spec fn is_lower_hex(s: Seq<char>) -> bool {
    forall|i: int| 0 <= i < s.len() ==> hex_digits().contains(#[trigger] s[i])
}

/// The bytes that a hexadecimal string spells.
pub open spec fn unhex(s: Seq<char>) -> Seq<u8> {
    Seq::new(s.len() / 2, |i: int| (hex_value(s[2 * i]) * 16 + hex_value(s[2 * i + 1])) as u8)
}

/// The value of the ASCII code of a hexadecimal digit of either case, or -1
/// for any other byte.
pub open spec fn hex_code_value(b: u8) -> int {
    if 48 <= b <= 57 {
        b - 48
    } else if 97 <= b <= 102 {
        b - 87
    } else if 65 <= b <= 70 {
        b - 55
    } else {
        -1
    }
}

/// Whether a byte string is 40 ASCII hexadecimal digits.
pub open spec fn is_hash_text(digits: Seq<u8>) -> bool {
    digits.len() == 40 && forall|i: int| 0 <= i < 40 ==> hex_code_value(#[trigger] digits[i]) >= 0
}

/// The bytes that ASCII hexadecimal digits spell.
pub open spec fn unhex_codes(digits: Seq<u8>) -> Seq<u8> {
    Seq::new(
        digits.len() / 2,
        |i: int| (hex_code_value(digits[2 * i]) * 16 + hex_code_value(digits[2 * i + 1])) as u8,
    )
}

/// The value of an ASCII hexadecimal digit.
pub fn code_value(b: u8) -> (v: Option<u8>)
    ensures
        v is Some <==> hex_code_value(b) >= 0,
        v matches Some(x) ==> x == hex_code_value(b),
{
    if 48 <= b && b <= 57 {
        Some(b - 48)
    } else if 97 <= b && b <= 102 {
        Some(b - 87)
    } else if 65 <= b && b <= 70 {
        Some(b - 55)
    } else {
        None
    }
}

/// `hex::encode`: the lowercase hexadecimal rendering of `data`, two digits
/// per byte.
#[verifier::external_body]
fn hex_encode(data: &[u8]) -> (s: String)
    ensures
        s@ == hex_of(data@),
{
    hex::encode(data)
}

/// `hex::decode`: the bytes that `s` spells. The outside function accepts
/// digits of either case and fails on a string of odd length or on any other
/// character; its error is dropped.
#[verifier::external_body]
fn hex_decode(s: &str) -> (bytes: Option<Vec<u8>>)
    ensures
        bytes is Some <==> is_hex(s@),
        bytes matches Some(v) ==> v@ == unhex(s@),
{
    hex::decode(s).ok()
}

/// The number that a byte string spells, most significant byte first.
pub open spec fn be_value(bytes: Seq<u8>) -> nat
    decreases bytes.len(),
{
    if bytes.len() == 0 {
        0
    } else {
        be_value(bytes.drop_last()) * 256 + bytes.last() as nat
    }
}

/// Of two byte strings of one length that first differ at `i`, the one with the
/// smaller byte there spells the smaller number.
pub proof fn lemma_first_difference_orders(a: Seq<u8>, b: Seq<u8>, i: int)
    requires
        a.len() == b.len(),
        0 <= i < a.len(),
        forall|k: int| 0 <= k < i ==> a[k] == b[k],
        a[i] < b[i],
    ensures
        be_value(a) < be_value(b),
    decreases a.len(),
{
    let n = a.len() as int;
    let a0 = a.drop_last();
    let b0 = b.drop_last();
    if i == n - 1 {
        assert(a0 =~= b0);
    } else {
        lemma_first_difference_orders(a0, b0, i);
    }
}

/// Byte strings of one length that spell the same number are equal.
pub proof fn lemma_be_value_injective(a: Seq<u8>, b: Seq<u8>)
    requires
        a.len() == b.len(),
        be_value(a) == be_value(b),
    ensures
        a == b,
    decreases a.len(),
{
    if a.len() > 0 {
        let a0 = a.drop_last();
        let b0 = b.drop_last();
        assert(be_value(a) % 256 == a.last() as nat);
        assert(be_value(b) % 256 == b.last() as nat);
        assert(be_value(a) / 256 == be_value(a0));
        assert(be_value(b) / 256 == be_value(b0));
        lemma_be_value_injective(a0, b0);
        assert(a =~= a0.push(a.last()));
        assert(b =~= b0.push(b.last()));
    } else {
        assert(a =~= b);
    }
}

/// The kind of digest that identifies an object.
#[derive(Clone, Copy, Debug, PartialEq, Eq, Structural, Hash, PartialOrd, Ord)]
pub enum HashType {
    Sha1,
}

/// A 20-byte content digest. Two hashes are equal when their bytes are.
#[derive(Clone, Copy, Debug, PartialEq, Eq, Hash, PartialOrd, Ord)]
pub struct Hash(pub [u8; 20]);

impl View for Hash {
    type V = Seq<u8>;

    open spec fn view(&self) -> Seq<u8> {
        self.0@
    }
}

impl Hash {
    /// The hash as a 160-bit number; hashes are ordered by it.
    pub open spec fn value(self) -> nat {
        be_value(self@)
    }

    /// The digest of `data`.
    pub fn new(data: &[u8]) -> (h: Hash)
        ensures
            h@ == sha1_digest(data@),
    {
        Hash(sha1_of(data))
    }

    /// The all-zero hash, which stands for "no object".
    pub fn zero() -> (h: Hash)
        ensures
            h@ == Seq::new(20, |i: int| 0u8),
    {
        let h = Hash([0u8; 20]);
        proof {
            assert(h@ =~= Seq::new(20, |i: int| 0u8));
        }
        h
    }

    /// Whether this is the all-zero hash.
    pub fn is_zero(&self) -> (z: bool)
        ensures
            z == (self@ == Seq::new(20, |i: int| 0u8)),
    {
        let mut i: usize = 0;
        while i < 20
            invariant
                i <= 20,
                forall|k: int| 0 <= k < i ==> self@[k] == 0,
            decreases 20 - i,
        {
            if self.0[i] != 0 {
                return false;
            }
            i += 1;
        }
        proof {
            assert(self@ =~= Seq::new(20, |i: int| 0u8));
        }
        true
    }

    /// The hash whose bytes are the first 20 of `bytes`, if there are that
    /// many.
    pub fn from_bytes(bytes: &[u8]) -> (r: Option<Hash>)
        ensures
            r is Some <==> bytes@.len() >= 20,
            r matches Some(h) ==> h@ == bytes@.subrange(0, 20),
    {
        if bytes.len() < 20 {
            return None;
        }
        let mut out: [u8; 20] = [0u8; 20];
        let mut i: usize = 0;
        while i < 20
            invariant
                i <= 20,
                bytes@.len() >= 20,
                forall|k: int| 0 <= k < i ==> out@[k] == bytes@[k],
            decreases 20 - i,
        {
            out[i] = bytes[i];
            i += 1;
        }
        proof {
            assert(out@ =~= bytes@.subrange(0, 20));
        }
        Some(Hash(out))
    }

    /// The first byte, which selects the hash's fan-out bucket.
    pub fn get_first(&self) -> (b: u8)
        ensures
            b == self@[0],
    {
        self.0[0]
    }

    /// Whether the two hashes have the same bytes.
    pub fn same(&self, other: &Hash) -> (eq: bool)
        ensures
            eq == (self@ == other@),
            eq == (*self == *other),
    {
        let mut i: usize = 0;
        while i < 20
            invariant
                i <= 20,
                forall|k: int| 0 <= k < i ==> self@[k] == other@[k],
            decreases 20 - i,
        {
            if self.0[i] != other.0[i] {
                return false;
            }
            i += 1;
        }
        proof {
            assert(self@ =~= other@);
            assert(self.0 =~= other.0);
        }
        true
    }

    /// Whether this hash comes strictly before `other`.
    pub fn less_than(&self, other: &Hash) -> (lt: bool)
        ensures
            lt == (self.value() < other.value()),
    {
        let mut i: usize = 0;
        while i < 20
            invariant
                i <= 20,
                forall|k: int| 0 <= k < i ==> self@[k] == other@[k],
            decreases 20 - i,
        {
            if self.0[i] < other.0[i] {
                proof {
                    lemma_first_difference_orders(self@, other@, i as int);
                }
                return true;
            }
            if self.0[i] > other.0[i] {
                proof {
                    lemma_first_difference_orders(other@, self@, i as int);
                }
                return false;
            }
            i += 1;
        }
        proof {
            assert(self@ =~= other@);
        }
        false
    }

    /// The 40 lowercase hexadecimal digits of the hash.
    pub fn to_plain_str(&self) -> (s: String)
        ensures
            s@ == hex_of(self@),
            s@.len() == 40,
    {
        hex_encode(self.0.as_slice())
    }

    /// The fan-out prefix: the first byte as two hexadecimal digits, which is
    /// also the directory of the hash's loose object.
    pub fn to_folder(&self) -> (s: String)
        ensures
            s@ == hex_of(self@.subrange(0, 1)),
            s@ == hex_of(self@).subrange(0, 2),
    {
        let first = vstd::slice::slice_subrange(self.0.as_slice(), 0, 1);
        let s = hex_encode(first);
        proof {
            assert(hex_of(self@.subrange(0, 1)) =~= hex_of(self@).subrange(0, 2));
        }
        s
    }

    /// The file name of the hash's loose object: the last 38 digits.
    pub fn to_filename(&self) -> (s: String)
        ensures
            s@ == hex_of(self@.subrange(1, 20)),
            s@ == hex_of(self@).subrange(2, 40),
    {
        let rest = vstd::slice::slice_subrange(self.0.as_slice(), 1, 20);
        let s = hex_encode(rest);
        proof {
            assert(hex_of(self@.subrange(1, 20)) =~= hex_of(self@).subrange(2, 40));
        }
        s
    }

    /// The hash that the 40 ASCII hexadecimal digits `data[from..from + 40]`
    /// spell; digits of either case are taken.
    pub fn from_hex_bytes(data: &[u8], from: usize) -> (r: Option<Hash>)
        ensures
            r is Some <==> from + 40 <= data@.len() && is_hash_text(
                data@.subrange(from as int, from + 40),
            ),
            r matches Some(h) ==> h@ == unhex_codes(data@.subrange(from as int, from + 40)),
    {
        if data.len() < 40 || from > data.len() - 40 {
            return None;
        }
        let ghost digits = data@.subrange(from as int, from + 40);
        let mut out: [u8; 20] = [0u8; 20];
        let mut i: usize = 0;
        while i < 20
            invariant
                i <= 20,
                from + 40 <= data.len(),
                digits == data@.subrange(from as int, from + 40),
                forall|k: int| 0 <= k < 2 * i ==> hex_code_value(#[trigger] digits[k]) >= 0,
                forall|k: int| 0 <= k < i ==> out@[k] == unhex_codes(digits)[k],
            decreases 20 - i,
        {
            let high = match code_value(data[from + 2 * i]) {
                Some(v) => v,
                None => {
                    proof {
                        assert(digits[2 * i] == data@[from + 2 * i]);
                    }
                    return None;
                },
            };
            let low = match code_value(data[from + 2 * i + 1]) {
                Some(v) => v,
                None => {
                    proof {
                        assert(digits[2 * i + 1] == data@[from + 2 * i + 1]);
                    }
                    return None;
                },
            };
            proof {
                assert(digits[2 * i] == data@[from + 2 * i]);
                assert(digits[2 * i + 1] == data@[from + 2 * i + 1]);
            }
            out[i] = high * 16 + low;
            i += 1;
        }
        proof {
            assert(out@ =~= unhex_codes(digits));
        }
        Some(Hash(out))
    }

    /// The hash that 40 hexadecimal digits spell; digits of either case are
    /// taken.
    pub fn from_hex(s: &str) -> (r: Option<Hash>)
        ensures
            r is Some <==> is_hex(s@) && s@.len() == 40,
            r matches Some(h) ==> h@ == unhex(s@),
    {
        match hex_decode(s) {
            None => None,
            Some(bytes) => {
                if bytes.len() != 20 {
                    None
                } else {
                    let r = Hash::from_bytes(bytes.as_slice());
                    proof {
                        assert(bytes@.subrange(0, 20) =~= bytes@);
                    }
                    r
                }
            },
        }
    }
}

impl Default for Hash {
    /// The all-zero hash.
    fn default() -> (h: Hash)
        ensures
            h@ == Seq::new(20, |i: int| 0u8),
    {
        Hash::zero()
    }
}

/// The rendering of a hash is 40 lowercase hexadecimal digits.
pub proof fn lemma_hex_is_lowercase(bytes: Seq<u8>)
    ensures
        hex_of(bytes).len() == 2 * bytes.len(),
        is_lower_hex(hex_of(bytes)),
        is_hex(hex_of(bytes)),
{
    let s = hex_of(bytes);
    assert forall|i: int| 0 <= i < s.len() implies hex_digits().contains(#[trigger] s[i])
        && hex_value(s[i]) >= 0 by {
        let d = if i % 2 == 0 {
            bytes[i / 2] as int / 16
        } else {
            bytes[i / 2] as int % 16
        };
        assert(0 <= d < 16);
        assert(s[i] == hex_digits()[d]);
    }
}

/// Reading a rendering back gives the bytes again: rendering loses nothing.
pub proof fn lemma_unhex_of_hex(bytes: Seq<u8>)
    ensures
        unhex(hex_of(bytes)) == bytes,
{
    let s = hex_of(bytes);
    assert forall|i: int| 0 <= i < bytes.len() implies unhex(s)[i] == bytes[i] by {
        let hi = bytes[i] as int / 16;
        let lo = bytes[i] as int % 16;
        assert(s[2 * i] == hex_digits()[hi]);
        assert(s[2 * i + 1] == hex_digits()[lo]);
        assert(hex_value(hex_digits()[hi]) == hi);
        assert(hex_value(hex_digits()[lo]) == lo);
    }
    assert(unhex(s) =~= bytes);
}

/// Every string of lowercase hexadecimal digits of even length is the
/// rendering of the bytes it spells.
pub proof fn lemma_hex_of_unhex(s: Seq<char>)
    requires
        is_lower_hex(s),
        s.len() % 2 == 0,
    ensures
        hex_of(unhex(s)) == s,
{
    let bytes = unhex(s);
    assert forall|i: int| 0 <= i < s.len() implies hex_of(bytes)[i] == s[i] by {
        let j = i / 2;
        let c0 = s[2 * j];
        let c1 = s[2 * j + 1];
        assert(hex_digits().contains(c0));
        assert(hex_digits().contains(c1));
        let k0 = choose|k: int| 0 <= k < 16 && hex_digits()[k] == c0;
        let k1 = choose|k: int| 0 <= k < 16 && hex_digits()[k] == c1;
        assert(hex_value(c0) == k0);
        assert(hex_value(c1) == k1);
        assert(bytes[j] as int == k0 * 16 + k1);
    }
    assert(hex_of(bytes) =~= s);
}

/// The rendering of hashes is a bijection between the 20-byte form and the
/// strings of 40 lowercase hexadecimal digits: it yields such a string, two
/// hashes with one rendering are equal, and every such string is the rendering
/// of the hash it spells.
pub proof fn lemma_hash_rendering_bijective(
    a: Hash,
    b: Hash,
    s: Seq<char>,
)
    ensures
        hex_of(a@).len() == 40,
        is_lower_hex(hex_of(a@)),
        hex_of(a@) == hex_of(b@) ==> a == b,
        unhex(hex_of(a@)) == a@,
        is_lower_hex(s) && s.len() == 40 ==> unhex(s).len() == 20 && hex_of(unhex(s)) == s,
{
    lemma_hex_is_lowercase(a@);
    lemma_unhex_of_hex(a@);
    lemma_unhex_of_hex(b@);
    if hex_of(a@) == hex_of(b@) {
        assert(a@ == b@);
        assert(a.0 =~= b.0);
    }
    if is_lower_hex(s) && s.len() == 40 {
        lemma_hex_of_unhex(s);
    }
}

} // verus!
