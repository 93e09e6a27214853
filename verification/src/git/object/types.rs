//! The four object types and the two delta kinds that exist only inside a
//! pack.

use vstd::prelude::*;

verus! {

/// The type of a stored object.
#[derive(Clone, Copy, Debug, PartialEq, Eq, Structural, Hash, PartialOrd, Ord)]
pub enum ObjectType {
    Commit,
    Tree,
    Blob,
    Tag,
}

/// How the next object of a pack is to be reconstructed.
#[derive(Clone, Copy, Debug, PartialEq, Eq, Structural)]
pub enum PackObjectType {
    /// The object follows in full.
    Base(ObjectType),
    /// The object is a delta against the object a given distance back.
    OffsetDelta,
    /// The object is a delta against the object with a given hash.
    HashDelta,
}

/// The type code of an object type in a pack header.
pub open spec fn type_number(t: ObjectType) -> u8 {
    match t {
        ObjectType::Commit => 1,
        ObjectType::Tree => 2,
        ObjectType::Blob => 3,
        ObjectType::Tag => 4,
    }
}

/// What a type code of a pack header stands for.
pub open spec fn pack_type_of(code: u8) -> Option<PackObjectType> {
    if code == 1 {
        Some(PackObjectType::Base(ObjectType::Commit))
    } else if code == 2 {
        Some(PackObjectType::Base(ObjectType::Tree))
    } else if code == 3 {
        Some(PackObjectType::Base(ObjectType::Blob))
    } else if code == 4 {
        Some(PackObjectType::Base(ObjectType::Tag))
    } else if code == 6 {
        Some(PackObjectType::OffsetDelta)
    } else if code == 7 {
        Some(PackObjectType::HashDelta)
    } else {
        None
    }
}

/// The keyword that names an object type in an object's header: "commit",
/// "tree", "blob" or "tag" in ASCII.
pub open spec fn type_keyword(t: ObjectType) -> Seq<u8> {
    match t {
        ObjectType::Commit => seq![0x63u8, 0x6f, 0x6d, 0x6d, 0x69, 0x74],
        ObjectType::Tree => seq![0x74u8, 0x72, 0x65, 0x65],
        ObjectType::Blob => seq![0x62u8, 0x6c, 0x6f, 0x62],
        ObjectType::Tag => seq![0x74u8, 0x61, 0x67],
    }
}

/// The object type that a keyword names, if it names one.
pub open spec fn keyword_type(word: Seq<u8>) -> Option<ObjectType> {
    if word == type_keyword(ObjectType::Commit) {
        Some(ObjectType::Commit)
    } else if word == type_keyword(ObjectType::Tree) {
        Some(ObjectType::Tree)
    } else if word == type_keyword(ObjectType::Blob) {
        Some(ObjectType::Blob)
    } else if word == type_keyword(ObjectType::Tag) {
        Some(ObjectType::Tag)
    } else {
        None
    }
}

impl ObjectType {
    /// The type code of this type in a pack header.
    pub fn type2_number(&self) -> (code: u8)
        ensures
            code == type_number(*self),
            pack_type_of(code) == Some(PackObjectType::Base(*self)),
    {
        match self {
            ObjectType::Commit => 1,
            ObjectType::Tree => 2,
            ObjectType::Blob => 3,
            ObjectType::Tag => 4,
        }
    }

    /// The keyword of this type, as bytes.
    pub fn keyword(&self) -> (word: Vec<u8>)
        ensures
            word@ == type_keyword(*self),
    {
        let word = match self {
            ObjectType::Commit => vec![0x63u8, 0x6f, 0x6d, 0x6d, 0x69, 0x74],
            ObjectType::Tree => vec![0x74u8, 0x72, 0x65, 0x65],
            ObjectType::Blob => vec![0x62u8, 0x6c, 0x6f, 0x62],
            ObjectType::Tag => vec![0x74u8, 0x61, 0x67],
        };
        proof {
            assert(word@ =~= type_keyword(*self));
        }
        word
    }

    /// The type that the bytes `word[from..to]` name.
    pub fn from_keyword(word: &[u8], from: usize, to: usize) -> (t: Option<ObjectType>)
        requires
            from <= to <= word@.len(),
        ensures
            t == keyword_type(word@.subrange(from as int, to as int)),
    {
        let w = vstd::slice::slice_subrange(word, from, to);
        let n = w.len();
        if n == 6 && w[0] == 0x63 && w[1] == 0x6f && w[2] == 0x6d && w[3] == 0x6d && w[4] == 0x69
            && w[5] == 0x74 {
            proof {
                assert(w@ =~= type_keyword(ObjectType::Commit));
            }
            Some(ObjectType::Commit)
        } else if n == 4 && w[0] == 0x74 && w[1] == 0x72 && w[2] == 0x65 && w[3] == 0x65 {
            proof {
                assert(w@ =~= type_keyword(ObjectType::Tree));
            }
            Some(ObjectType::Tree)
        } else if n == 4 && w[0] == 0x62 && w[1] == 0x6c && w[2] == 0x6f && w[3] == 0x62 {
            proof {
                assert(w@ =~= type_keyword(ObjectType::Blob));
            }
            Some(ObjectType::Blob)
        } else if n == 3 && w[0] == 0x74 && w[1] == 0x61 && w[2] == 0x67 {
            proof {
                assert(w@ =~= type_keyword(ObjectType::Tag));
            }
            Some(ObjectType::Tag)
        } else {
            proof {
                let c = type_keyword(ObjectType::Commit);
                let t = type_keyword(ObjectType::Tree);
                let b = type_keyword(ObjectType::Blob);
                let g = type_keyword(ObjectType::Tag);
                if w@ == c {
                    assert(w@[0] == c[0] && w@[1] == c[1] && w@[2] == c[2] && w@[3] == c[3]
                        && w@[4] == c[4] && w@[5] == c[5]);
                }
                if w@ == t {
                    assert(w@[0] == t[0] && w@[1] == t[1] && w@[2] == t[2] && w@[3] == t[3]);
                }
                if w@ == b {
                    assert(w@[0] == b[0] && w@[1] == b[1] && w@[2] == b[2] && w@[3] == b[3]);
                }
                if w@ == g {
                    assert(w@[0] == g[0] && w@[1] == g[1] && w@[2] == g[2]);
                }
            }
            None
        }
    }
}

impl PackObjectType {
    /// What a type code of a pack header stands for; codes 0 and 5 stand for
    /// nothing.
    pub fn type_number2_type(code: u8) -> (t: Option<PackObjectType>)
        ensures
            t == pack_type_of(code),
    {
        if code == 1 {
            Some(PackObjectType::Base(ObjectType::Commit))
        } else if code == 2 {
            Some(PackObjectType::Base(ObjectType::Tree))
        } else if code == 3 {
            Some(PackObjectType::Base(ObjectType::Blob))
        } else if code == 4 {
            Some(PackObjectType::Base(ObjectType::Tag))
        } else if code == 6 {
            Some(PackObjectType::OffsetDelta)
        } else if code == 7 {
            Some(PackObjectType::HashDelta)
        } else {
            None
        }
    }
}

} // verus!
