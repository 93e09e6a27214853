//! The cache of one pack-parse session: every object materialized so far,
//! reachable by the offset it was read at and by its hash.

use vstd::prelude::*;
use std::collections::HashMap;
use crate::git::hash;
use crate::git::hash_index::{latest_index, lemma_latest_index, HashIndex};
use crate::git::object::{Object, ObjectView};

verus! {

broadcast use vstd::std_specs::hash::group_hash_axioms;

/// The model of a cached object.
pub struct EntryView {
    /// The object itself.
    pub object: ObjectView,
    /// The hash recorded for it.
    pub hash: Seq<u8>,
    /// The position just behind the object's last byte in the pack.
    pub end: u64,
    /// The checksum of the bytes that the object occupies in the pack.
    pub crc32: u32,
}

/// The model of the cache: its two mappings.
pub struct CacheView {
    /// From the offset an object was read at to the object.
    pub by_offset: Map<u64, EntryView>,
    /// From a hash to the object with that hash.
    pub by_hash: Map<Seq<u8>, ObjectView>,
}

impl CacheView {
    /// The cache that holds nothing.
    pub open spec fn empty() -> CacheView {
        CacheView { by_offset: Map::empty(), by_hash: Map::empty() }
    }

    /// The cache after an object read at `offset` was added: it is entered
    /// under the offset and under its hash.
    pub open spec fn insert(self, offset: u64, entry: EntryView) -> CacheView {
        CacheView {
            by_offset: self.by_offset.insert(offset, entry),
            by_hash: self.by_hash.insert(entry.hash, entry.object),
        }
    }

    /// The cache after an object from outside the pack was added: it is
    /// entered under its hash only.
    pub open spec fn insert_outside(self, object: ObjectView) -> CacheView {
        CacheView { by_offset: self.by_offset, by_hash: self.by_hash.insert(object.hash(), object) }
    }

    /// The cache after the objects of `outside` were added, the last one
    /// first: of two with one hash, the earlier one is the one that is found.
    pub open spec fn with_outside(self, outside: Seq<ObjectView>) -> CacheView
        decreases outside.len(),
    {
        if outside.len() == 0 {
            self
        } else {
            self.insert_outside(outside.last()).with_outside(outside.drop_last())
        }
    }

    /// What holds of every cache: the hash recorded for an object is the hash
    /// of its type and contents, an object entered under an offset is also
    /// entered under its hash, and every object entered under a hash has that
    /// hash.
    pub open spec fn wf(self) -> bool {
        &&& self.by_offset.dom().finite()
        &&& forall|o: u64| #[trigger]
            self.by_offset.contains_key(o) ==> self.by_offset[o].hash
                == self.by_offset[o].object.hash() && self.by_hash.contains_key(
                self.by_offset[o].hash,
            )
        &&& forall|h: Seq<u8>| #[trigger]
            self.by_hash.contains_key(h) ==> self.by_hash[h].hash() == h
    }

    /// Whether no two different objects of the cache have one hash.
    pub open spec fn collision_free(self) -> bool {
        forall|o: u64| #[trigger]
            self.by_offset.contains_key(o) ==> self.by_hash[self.by_offset[o].hash]
                == self.by_offset[o].object
    }
}

/// Whether `list` names the offset `o`.
pub open spec fn names_offset(list: Seq<(u64, hash::Hash, u32)>, o: u64) -> bool {
    exists|k: int| 0 <= k < list.len() && (#[trigger] list[k]).0 == o
}

/// A cached object: the object, the hash recorded for it, and where its bytes
/// end in the pack, with their checksum.
pub struct CacheEntry {
    pub object: Object,
    pub hash: hash::Hash,
    pub end: u64,
    pub crc32: u32,
}

impl View for CacheEntry {
    type V = EntryView;

    open spec fn view(&self) -> EntryView {
        EntryView { object: self.object@, hash: self.hash@, end: self.end, crc32: self.crc32 }
    }
}

/// One insertion into the cache. An object from outside the pack has no
/// offset.
struct Slot {
    offset: Option<u64>,
    entry: CacheEntry,
}

/// The hashes of the insertions, oldest first.
spec fn slot_hashes(slots: Seq<Slot>) -> Seq<Seq<u8>> {
    Seq::new(slots.len(), |i: int| slots[i].entry.hash@)
}

/// The two indices over the objects of one pack-parse session. Nothing is
/// evicted while the session lasts.
pub struct PackObjectCache {
    /// Every insertion, oldest first.
    slots: Vec<Slot>,
    /// From an offset to the latest insertion under it.
    index: HashMap<u64, usize>,
    /// The hashes of the insertions, for finding the latest under a hash.
    hashes: HashIndex,
}

impl View for PackObjectCache {
    type V = CacheView;

    closed spec fn view(&self) -> CacheView {
        CacheView {
            by_offset: Map::new(
                |o: u64| self.index@.contains_key(o),
                |o: u64| self.slots@[self.index@[o] as int].entry@,
            ),
            by_hash: Map::new(
                |h: Seq<u8>| latest_index(slot_hashes(self.slots@), h) >= 0,
                |h: Seq<u8>| self.slots@[latest_index(slot_hashes(self.slots@), h)].entry.object@,
            ),
        }
    }
}

impl PackObjectCache {
    #[verifier::type_invariant]
    closed spec fn inv(self) -> bool {
        &&& forall|o: u64| #[trigger]
            self.index@.contains_key(o) ==> self.index@[o] < self.slots@.len()
                && self.slots@[self.index@[o] as int].offset == Some(o)
        &&& forall|i: int|
            0 <= i < self.slots@.len() ==> (#[trigger] self.slots@[i]).entry.hash@
                == self.slots@[i].entry.object@.hash()
        &&& self.hashes@ == slot_hashes(self.slots@)
    }

    /// An empty cache.
    pub fn new() -> (cache: PackObjectCache)
        ensures
            cache@ == CacheView::empty(),
    {
        let slots: Vec<Slot> = Vec::new();
        proof {
            assert(slot_hashes(slots@) =~= Seq::<Seq<u8>>::empty());
        }
        let cache = PackObjectCache { slots, index: HashMap::new(), hashes: HashIndex::new() };
        proof {
            assert(cache@.by_offset =~= Map::empty());
            assert(cache@.by_hash =~= Map::empty());
        }
        cache
    }

    /// Makes known what holds of every cache: it is well formed. The call
    /// does nothing when the program runs.
    pub fn validity(&self)
        ensures
            self@.wf(),
    {
        proof {
            use_type_invariant(self);
            assert(self@.by_offset.dom() =~= self.index@.dom());
            assert forall|o: u64| #[trigger] self@.by_offset.contains_key(o) implies self@.by_offset[o].hash
                == self@.by_offset[o].object.hash() && self@.by_hash.contains_key(
                self@.by_offset[o].hash,
            ) by {
                let i = self.index@[o] as int;
                let h = self.slots@[i].entry.hash@;
                lemma_latest_index(slot_hashes(self.slots@), h);
                assert(slot_hashes(self.slots@)[i] == h);
            }
            assert forall|h: Seq<u8>| #[trigger] self@.by_hash.contains_key(h) implies self@.by_hash[h].hash()
                == h by {
                lemma_latest_index(slot_hashes(self.slots@), h);
            }
        }
    }

    /// Appends one insertion.
    fn push_slot(&mut self, offset: Option<u64>, object: Object, end: u64, crc32: u32) -> (h:
        hash::Hash)
        ensures
            h@ == object@.hash(),
            match offset {
                Some(o) => final(self)@ == old(self)@.insert(
                    o,
                    EntryView { object: object@, hash: object@.hash(), end, crc32 },
                ),
                None => final(self)@ == old(self)@.insert_outside(object@),
            },
    {
        proof {
            use_type_invariant(&*self);
        }
        let h = object.hash();
        let mut taken = PackObjectCache::new();
        core::mem::swap(self, &mut taken);
        let PackObjectCache { mut slots, mut index, mut hashes } = taken;
        let ghost old_slots = slots@;
        let ghost old_index = index@;
        let ghost object_view = object@;
        let n = slots.len();
        slots.push(Slot { offset, entry: CacheEntry { object, hash: h, end, crc32 } });
        hashes.push(h);
        if let Some(o) = offset {
            index.insert(o, n);
        }
        proof {
            assert(slot_hashes(slots@) =~= slot_hashes(old_slots).push(h@));
            assert(slot_hashes(slots@).drop_last() =~= slot_hashes(old_slots));
            assert forall|g: Seq<u8>| latest_index(slot_hashes(slots@), g) == (if g == h@ {
                n as int
            } else {
                latest_index(slot_hashes(old_slots), g)
            }) by {}
            assert forall|g: Seq<u8>| g != h@ && latest_index(slot_hashes(old_slots), g)
                >= 0 implies slots@[latest_index(slot_hashes(old_slots), g)] == old_slots[latest_index(
                slot_hashes(old_slots),
                g,
            )] by {
                lemma_latest_index(slot_hashes(old_slots), g);
            }
            assert forall|o: u64| #[trigger] old_index.contains_key(o) implies slots@[old_index[o] as int]
                == old_slots[old_index[o] as int] by {}
        }
        *self = PackObjectCache { slots, index, hashes };
        proof {
            match offset {
                Some(o) => {
                    let want = old(self)@.insert(
                        o,
                        EntryView { object: object_view, hash: object_view.hash(), end, crc32 },
                    );
                    assert(self@.by_offset =~= want.by_offset);
                    assert(self@.by_hash =~= want.by_hash);
                },
                None => {
                    let want = old(self)@.insert_outside(object_view);
                    assert(self@.by_offset =~= want.by_offset);
                    assert(self@.by_hash =~= want.by_hash);
                },
            }
        }
        h
    }

    /// Enters an object that was read at `offset` and ends at `end`, under the
    /// offset and under its hash, and returns the hash.
    pub fn update(&mut self, object: Object, offset: u64, end: u64, crc32: u32) -> (h: hash::Hash)
        ensures
            h@ == object@.hash(),
            final(self)@ == old(self)@.insert(
                offset,
                EntryView { object: object@, hash: object@.hash(), end, crc32 },
            ),
    {
        self.push_slot(Some(offset), object, end, crc32)
    }

    /// Enters an object that comes from outside the pack, under its hash only.
    pub fn update_outside(&mut self, object: Object) -> (h: hash::Hash)
        ensures
            h@ == object@.hash(),
            final(self)@ == old(self)@.insert_outside(object@),
    {
        self.push_slot(None, object, 0, 0)
    }

    /// The object that was read at `offset`, if one was.
    pub fn offset_object(&self, offset: u64) -> (r: Option<&CacheEntry>)
        ensures
            r is Some <==> self@.by_offset.contains_key(offset),
            r matches Some(entry) ==> entry@ == self@.by_offset[offset],
    {
        proof {
            use_type_invariant(self);
        }
        match self.index.get(&offset) {
            None => None,
            Some(i) => Some(&self.slots[*i].entry),
        }
    }

    /// The object with hash `h`, if the cache holds one.
    pub fn hash_object(&self, h: &hash::Hash) -> (r: Option<&Object>)
        ensures
            r is Some <==> self@.by_hash.contains_key(h@),
            r matches Some(object) ==> object@ == self@.by_hash[h@],
    {
        proof {
            use_type_invariant(self);
            lemma_latest_index(slot_hashes(self.slots@), h@);
        }
        match self.hashes.find(h) {
            Some(i) => Some(&self.slots[i].entry.object),
            None => None,
        }
    }

    /// For every offset under which an object is entered: the offset, the hash
    /// of the object and the checksum of its bytes in the pack.
    pub fn entries(&self) -> (list: Vec<(u64, hash::Hash, u32)>)
        ensures
            forall|k: int|
                0 <= k < list@.len() ==> self@.by_offset.contains_key((#[trigger] list@[k]).0)
                    && self@.by_offset[list@[k].0].hash == list@[k].1@
                    && self@.by_offset[list@[k].0].crc32 == list@[k].2,
            forall|o: u64| #[trigger]
                self@.by_offset.contains_key(o) ==> names_offset(list@, o),
    {
        proof {
            use_type_invariant(self);
        }
        let mut list: Vec<(u64, hash::Hash, u32)> = Vec::new();
        let mut i: usize = 0;
        while i < self.slots.len()
            invariant
                i <= self.slots@.len(),
                forall|o: u64| #[trigger]
                    self.index@.contains_key(o) ==> self.index@[o] < self.slots@.len()
                        && self.slots@[self.index@[o] as int].offset == Some(o),
                forall|k: int|
                    0 <= k < list@.len() ==> self@.by_offset.contains_key((#[trigger] list@[k]).0)
                        && self@.by_offset[list@[k].0].hash == list@[k].1@
                        && self@.by_offset[list@[k].0].crc32 == list@[k].2,
                forall|o: u64| #[trigger]
                    self.index@.contains_key(o) && self.index@[o] < i ==> names_offset(list@, o),
            decreases self.slots@.len() - i,
        {
            let ghost before = list@;
            let slot = &self.slots[i];
            if let Some(o) = slot.offset {
                let live = match self.index.get(&o) {
                    Some(at) => *at == i,
                    None => false,
                };
                if live {
                    list.push((o, slot.entry.hash, slot.entry.crc32));
                    proof {
                        assert(list@[list@.len() - 1].0 == o);
                        assert forall|k: int| 0 <= k < list@.len() implies self@.by_offset.contains_key(
                            (#[trigger] list@[k]).0,
                        ) && self@.by_offset[list@[k].0].hash == list@[k].1@
                            && self@.by_offset[list@[k].0].crc32 == list@[k].2 by {
                            if k < before.len() {
                                assert(list@[k] == before[k]);
                            }
                        }
                    }
                }
            }
            proof {
                assert forall|q: u64| #[trigger]
                    self.index@.contains_key(q) && self.index@[q] < i + 1 implies names_offset(
                    list@,
                    q,
                ) by {
                    if self.index@[q] < i {
                        assert(names_offset(before, q));
                        let k = choose|k: int| 0 <= k < before.len() && (#[trigger] before[k]).0 == q;
                        assert(list@[k] == before[k]);
                    } else {
                        assert(list@[list@.len() - 1].0 == q);
                    }
                }
            }
            i += 1;
        }
        list
    }

    /// The number of offsets under which an object is entered.
    pub fn len(&self) -> (n: usize)
        ensures
            n == self@.by_offset.dom().len(),
    {
        proof {
            assert(self@.by_offset.dom() =~= self.index@.dom());
        }
        self.index.len()
    }
}

} // verus!
