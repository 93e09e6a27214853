//! Objects as they are stored: a type and raw contents, identified by the
//! digest of both.

pub mod base;
pub mod delta;
pub mod metadata;
pub mod types;

use vstd::prelude::*;
use crate::git::hash;
use crate::git::hash::sha1_digest;
use crate::git::object::types::{type_keyword, ObjectType};

verus! {

/// The decimal digits of a number, in ASCII, without leading zeros.
pub open spec fn decimal(n: nat) -> Seq<u8>
    decreases n,
{
    if n < 10 {
        seq![(48 + n) as u8]
    } else {
        decimal(n / 10).push((48 + n % 10) as u8)
    }
}

/// The header that precedes an object's contents where the object is hashed
/// or stored on its own: the type keyword, a space, the decimal length, a NUL.
pub open spec fn object_header(t: ObjectType, len: nat) -> Seq<u8> {
    type_keyword(t) + seq![0x20u8] + decimal(len) + seq![0u8]
}

/// The identity of an object: the digest of its header and contents.
pub open spec fn object_hash(t: ObjectType, contents: Seq<u8>) -> Seq<u8> {
    sha1_digest(object_header(t, contents.len()) + contents)
}

/// The model of an object: its type and its contents as a byte sequence.
pub struct ObjectView {
    pub object_type: ObjectType,
    pub contents: Seq<u8>,
}

impl ObjectView {
    /// The identity of the object.
    pub open spec fn hash(self) -> Seq<u8> {
        object_hash(self.object_type, self.contents)
    }
}

/// An object in memory: a type and the raw bytes of its contents.
#[derive(Clone, Debug)]
pub struct Object {
    pub object_type: ObjectType,
    pub contents: Vec<u8>,
}

impl View for Object {
    type V = ObjectView;

    open spec fn view(&self) -> ObjectView {
        ObjectView { object_type: self.object_type, contents: self.contents@ }
    }
}

/// The models of a sequence of objects.
pub open spec fn object_views(objects: Seq<Object>) -> Seq<ObjectView> {
    Seq::new(objects.len(), |i: int| objects[i]@)
}

/// Appends the decimal digits of `n` to `out`.
pub fn push_decimal(out: &mut Vec<u8>, n: usize)
    ensures
        final(out)@ == old(out)@ + decimal(n as nat),
    decreases n,
{
    if n >= 10 {
        push_decimal(out, n / 10);
    }
    out.push(48 + (n % 10) as u8);
    proof {
        assert(final(out)@ =~= old(out)@ + decimal(n as nat));
    }
}

/// The header of an object of type `t` with `len` bytes of contents.
pub fn header_bytes(t: ObjectType, len: usize) -> (header: Vec<u8>)
    ensures
        header@ == object_header(t, len as nat),
{
    let mut header = t.keyword();
    header.push(0x20);
    push_decimal(&mut header, len);
    header.push(0);
    proof {
        assert(header@ =~= object_header(t, len as nat));
    }
    header
}

impl Object {
    /// The identity of the object: the digest of its header followed by its
    /// contents.
    pub fn hash(&self) -> (h: hash::Hash)
        ensures
            h@ == self@.hash(),
    {
        let mut buffer = header_bytes(self.object_type, self.contents.len());
        buffer.extend_from_slice(self.contents.as_slice());
        let h = hash::Hash::new(buffer.as_slice());
        proof {
            assert(buffer@ =~= object_header(self.object_type, self.contents@.len())
                + self.contents@);
        }
        h
    }
}

} // verus!
