//! A list of hashes in which the latest position of a hash is found without
//! going through the list: the hashes are chained by their first eight bytes.

use vstd::prelude::*;
use std::collections::HashMap;
use crate::git::hash;

verus! {

broadcast use vstd::std_specs::hash::group_hash_axioms;

/// The first eight bytes of a hash as a number.
pub open spec fn prefix_of(h: Seq<u8>) -> u64 {
    (h[0] as int * 0x100_0000_0000_0000 + h[1] as int * 0x1_0000_0000_0000 + h[2] as int
        * 0x100_0000_0000 + h[3] as int * 0x1_0000_0000 + h[4] as int * 0x100_0000 + h[5] as int
        * 0x1_0000 + h[6] as int * 0x100 + h[7] as int) as u64
}

/// The latest position of `h` in `keys`, or -1 where it does not occur.
pub open spec fn latest_index(keys: Seq<Seq<u8>>, h: Seq<u8>) -> int
    decreases keys.len(),
{
    if keys.len() == 0 {
        -1
    } else if keys.last() == h {
        keys.len() - 1
    } else {
        latest_index(keys.drop_last(), h)
    }
}

/// The latest position of a hash is a position of that hash, and no later
/// position is.
pub proof fn lemma_latest_index(keys: Seq<Seq<u8>>, h: Seq<u8>)
    ensures
        -1 <= latest_index(keys, h) < keys.len(),
        latest_index(keys, h) >= 0 ==> keys[latest_index(keys, h)] == h,
        forall|i: int| 0 <= i < keys.len() && #[trigger] keys[i] == h ==> i <= latest_index(keys, h),
    decreases keys.len(),
{
    if keys.len() > 0 && keys.last() != h {
        lemma_latest_index(keys.drop_last(), h);
        assert forall|i: int| 0 <= i < keys.len() && #[trigger] keys[i] == h implies i
            <= latest_index(keys, h) by {
            assert(keys.drop_last()[i] == keys[i]);
        }
    }
}

/// The models of a sequence of hashes.
pub open spec fn key_views(keys: Seq<hash::Hash>) -> Seq<Seq<u8>> {
    Seq::new(keys.len(), |i: int| keys[i]@)
}

/// The prefix of the hash at position `i`.
spec fn prefix_at(keys: Seq<hash::Hash>, i: int) -> u64 {
    prefix_of(keys[i]@)
}

/// Whether the link of position `i` names the latest earlier position with
/// the same prefix.
spec fn link_ok(keys: Seq<hash::Hash>, link: Option<usize>, i: int) -> bool {
    match link {
        Some(q) => q < i && prefix_at(keys, q as int) == prefix_at(keys, i) && forall|j: int|
            q < j < i ==> #[trigger] prefix_at(keys, j) != prefix_at(keys, i),
        None => forall|j: int| 0 <= j < i ==> #[trigger] prefix_at(keys, j) != prefix_at(keys, i),
    }
}

/// A list of hashes with a way to the latest position of each.
pub struct HashIndex {
    keys: Vec<hash::Hash>,
    /// For every position the latest earlier one with the same prefix.
    links: Vec<Option<usize>>,
    /// For every prefix the latest position with it.
    heads: HashMap<u64, usize>,
}

impl View for HashIndex {
    type V = Seq<Seq<u8>>;

    closed spec fn view(&self) -> Seq<Seq<u8>> {
        key_views(self.keys@)
    }
}

/// The first eight bytes of a hash as a number.
fn prefix(h: &hash::Hash) -> (p: u64)
    ensures
        p == prefix_of(h@),
{
    let b = &h.0;
    (b[0] as u64) * 0x100_0000_0000_0000 + (b[1] as u64) * 0x1_0000_0000_0000 + (b[2] as u64)
        * 0x100_0000_0000 + (b[3] as u64) * 0x1_0000_0000 + (b[4] as u64) * 0x100_0000 + (
    b[5] as u64) * 0x1_0000 + (b[6] as u64) * 0x100 + (b[7] as u64)
}

impl HashIndex {
    #[verifier::type_invariant]
    closed spec fn inv(self) -> bool {
        &&& self.links@.len() == self.keys@.len()
        &&& forall|p: u64| #[trigger]
            self.heads@.contains_key(p) ==> self.heads@[p] < self.keys@.len() && prefix_at(
                self.keys@,
                self.heads@[p] as int,
            ) == p
        &&& forall|i: int|
            0 <= i < self.keys@.len() ==> self.heads@.contains_key(
                #[trigger] prefix_at(self.keys@, i),
            ) && self.heads@[prefix_at(self.keys@, i)] >= i
        &&& forall|i: int|
            0 <= i < self.keys@.len() ==> link_ok(self.keys@, #[trigger] self.links@[i], i)
    }

    /// An empty list.
    pub fn new() -> (index: HashIndex)
        ensures
            index@ == Seq::<Seq<u8>>::empty(),
    {
        let index = HashIndex { keys: Vec::new(), links: Vec::new(), heads: HashMap::new() };
        proof {
            assert(index@ =~= Seq::<Seq<u8>>::empty());
        }
        index
    }

    /// The number of hashes in the list.
    pub fn len(&self) -> (n: usize)
        ensures
            n == self@.len(),
    {
        self.keys.len()
    }

    /// Appends a hash.
    pub fn push(&mut self, h: hash::Hash)
        ensures
            final(self)@ == old(self)@.push(h@),
    {
        proof {
            use_type_invariant(&*self);
        }
        let mut taken = HashIndex::new();
        core::mem::swap(self, &mut taken);
        let HashIndex { mut keys, mut links, mut heads } = taken;
        let ghost old_keys = keys@;
        let ghost old_links = links@;
        let ghost old_heads = heads@;
        let n = keys.len();
        let p = prefix(&h);
        let link = match heads.get(&p) {
            Some(at) => Some(*at),
            None => None,
        };
        keys.push(h);
        links.push(link);
        heads.insert(p, n);
        proof {
            assert forall|i: int| 0 <= i < n implies prefix_at(keys@, i) == prefix_at(old_keys, i) by {
                assert(keys@[i] == old_keys[i]);
            }
            assert(prefix_at(keys@, n as int) == p);
            assert forall|q: u64| #[trigger] heads@.contains_key(q) implies heads@[q] < keys@.len()
                && prefix_at(keys@, heads@[q] as int) == q by {
                if q != p {
                    assert(old_heads.contains_key(q));
                }
            }
            assert forall|i: int| 0 <= i < keys@.len() implies heads@.contains_key(
                #[trigger] prefix_at(keys@, i),
            ) && heads@[prefix_at(keys@, i)] >= i by {
                if i < n {
                    assert(old_heads.contains_key(prefix_at(old_keys, i)));
                }
            }
            assert forall|i: int| 0 <= i < keys@.len() implies link_ok(
                keys@,
                #[trigger] links@[i],
                i,
            ) by {
                if i < n {
                    assert(link_ok(old_keys, old_links[i], i));
                    match old_links[i] {
                        Some(q) => {
                            assert forall|j: int| q < j < i implies #[trigger] prefix_at(keys@, j)
                                != prefix_at(keys@, i) by {
                                assert(prefix_at(old_keys, j) != prefix_at(old_keys, i));
                            }
                        },
                        None => {
                            assert forall|j: int| 0 <= j < i implies #[trigger] prefix_at(keys@, j)
                                != prefix_at(keys@, i) by {
                                assert(prefix_at(old_keys, j) != prefix_at(old_keys, i));
                            }
                        },
                    }
                } else {
                    match link {
                        Some(q) => {
                            assert(old_heads.contains_key(p));
                            assert forall|j: int| q < j < i implies #[trigger] prefix_at(keys@, j)
                                != prefix_at(keys@, i) by {
                                if prefix_at(old_keys, j) == p {
                                    assert(old_heads[prefix_at(old_keys, j)] >= j);
                                }
                            }
                        },
                        None => {
                            assert forall|j: int| 0 <= j < i implies #[trigger] prefix_at(keys@, j)
                                != prefix_at(keys@, i) by {
                                if prefix_at(old_keys, j) == p {
                                    assert(old_heads.contains_key(prefix_at(old_keys, j)));
                                }
                            }
                        },
                    }
                }
            }
            assert(key_views(keys@) =~= key_views(old_keys).push(h@));
        }
        *self = HashIndex { keys, links, heads };
    }

    /// The latest position of `h` in the list, if it occurs.
    pub fn find(&self, h: &hash::Hash) -> (r: Option<usize>)
        ensures
            match r {
                Some(i) => latest_index(self@, h@) == i,
                None => latest_index(self@, h@) < 0,
            },
    {
        proof {
            use_type_invariant(self);
            lemma_latest_index(self@, h@);
        }
        let p = prefix(h);
        let mut cur = match self.heads.get(&p) {
            Some(at) => *at,
            None => {
                proof {
                    let r = latest_index(self@, h@);
                    if r >= 0 {
                        assert(self.keys@[r]@ == h@);
                        assert(self.heads@.contains_key(prefix_at(self.keys@, r)));
                    }
                }
                return None;
            },
        };
        proof {
            assert forall|j: int| cur < j < self.keys@.len() implies (#[trigger] self.keys@[j])@
                != h@ by {
                if self.keys@[j]@ == h@ {
                    assert(self.heads@[prefix_at(self.keys@, j)] >= j);
                }
            }
        }
        loop
            invariant
                cur < self.keys@.len(),
                self.links@.len() == self.keys@.len(),
                p == prefix_of(h@),
                prefix_at(self.keys@, cur as int) == p,
                forall|i: int|
                    0 <= i < self.keys@.len() ==> link_ok(self.keys@, #[trigger] self.links@[i], i),
                forall|j: int| cur < j < self.keys@.len() ==> (#[trigger] self.keys@[j])@ != h@,
                -1 <= latest_index(self@, h@) < self.keys@.len(),
                latest_index(self@, h@) >= 0 ==> self@[latest_index(self@, h@)] == h@,
                forall|i: int|
                    0 <= i < self@.len() && #[trigger] self@[i] == h@ ==> i <= latest_index(
                        self@,
                        h@,
                    ),
            decreases cur,
        {
            if self.keys[cur].same(h) {
                proof {
                    let r = latest_index(self@, h@);
                    assert(self@[cur as int] == h@);
                    if r > cur {
                        assert(self.keys@[r]@ == h@);
                    }
                }
                return Some(cur);
            }
            proof {
                assert(link_ok(self.keys@, self.links@[cur as int], cur as int));
            }
            match self.links[cur] {
                None => {
                    proof {
                        let r = latest_index(self@, h@);
                        if r >= 0 {
                            assert(self.keys@[r]@ == h@);
                            if r < cur {
                                assert(prefix_at(self.keys@, r) != prefix_at(self.keys@, cur as int));
                            }
                        }
                    }
                    return None;
                },
                Some(q) => {
                    proof {
                        assert forall|j: int| q < j < self.keys@.len() implies (
                        #[trigger] self.keys@[j])@ != h@ by {
                            if j < cur {
                                assert(prefix_at(self.keys@, j) != prefix_at(
                                    self.keys@,
                                    cur as int,
                                ));
                            }
                        }
                    }
                    cur = q;
                },
            }
        }
    }
}

} // verus!
