//! The index file that goes with a pack: for every object its hash, the
//! checksum of its bytes in the pack and its offset, in ascending order of
//! the hashes, behind a fan-out table that counts the hashes by first byte.

pub mod encode;
pub mod roundtrip;
pub mod sort;

use vstd::prelude::*;
use std::collections::HashMap;
use crate::errors::{ErrorView, GitError};
use crate::git::hash;
use crate::utils::{be_u32, read_hash, read_u32};

verus! {

broadcast use vstd::std_specs::hash::group_hash_axioms;

/// The four bytes that open an index file.
pub open spec fn idx_magic() -> Seq<u8> {
    seq![0xffu8, 0x74, 0x4f, 0x63]
}

/// Where the table of hashes starts: behind the magic, the version and the
/// 256 entries of the fan-out table.
pub const IDX_HASHES_START: u64 = 1032;

/// The smallest offset that does not fit the 31 bits of an offset entry.
pub const LARGE_OFFSET: u32 = 0x8000_0000;

/// The model of one index entry.
pub struct ItemView {
    pub id: Seq<u8>,
    pub crc32: u32,
    pub offset: u64,
}

/// One entry of an index: the hash of an object, the checksum of the bytes
/// that the object occupies in the pack, and the offset of the object.
#[derive(Clone, Copy, Debug, PartialEq, Eq)]
pub struct IdxItem {
    pub id: hash::Hash,
    pub crc32: u32,
    pub offset: u64,
}

impl View for IdxItem {
    type V = ItemView;

    open spec fn view(&self) -> ItemView {
        ItemView { id: self.id@, crc32: self.crc32, offset: self.offset }
    }
}

/// The models of a sequence of entries.
pub open spec fn item_views(items: Seq<IdxItem>) -> Seq<ItemView> {
    Seq::new(items.len(), |i: int| items[i]@)
}

/// The model of an index.
pub struct IdxView {
    pub version: u32,
    pub number_of_objects: nat,
    pub map_of_prefix: Map<u8, usize>,
    pub idx_items: Seq<ItemView>,
    pub pack_signature: Seq<u8>,
    pub idx_signature: Seq<u8>,
    pub file_data: Seq<u8>,
}

/// An index: its version, the number of objects it lists, for every first
/// byte that occurs the number of hashes that start with it, the entries in
/// ascending order of their hashes, the trailer of the pack it belongs to, its
/// own trailer, and the bytes of the file.
pub struct Idx {
    pub version: u32,
    pub number_of_objects: usize,
    pub map_of_prefix: HashMap<u8, usize>,
    pub idx_items: Vec<IdxItem>,
    pub pack_signature: hash::Hash,
    pub idx_signature: hash::Hash,
    pub _file_data: Vec<u8>,
}

impl View for Idx {
    type V = IdxView;

    open spec fn view(&self) -> IdxView {
        IdxView {
            version: self.version,
            number_of_objects: self.number_of_objects as nat,
            map_of_prefix: self.map_of_prefix@,
            idx_items: item_views(self.idx_items@),
            pack_signature: self.pack_signature@,
            idx_signature: self.idx_signature@,
            file_data: self._file_data@,
        }
    }
}

/// The number that the four bytes at `pos` spell.
#[verifier::opaque]
pub open spec fn u32_in(data: Seq<u8>, pos: int) -> int {
    be_u32(data.subrange(pos, pos + 4))
}

/// The counts of the first bytes below `upto` that occur, by the fan-out
/// table.
pub open spec fn prefix_counts(data: Seq<u8>, upto: int) -> Map<u8, usize> {
    Map::new(
        |p: u8| p < upto && fan_out_delta(data, p as int) != 0,
        |p: u8| fan_out_delta(data, p as int) as usize,
    )
}

/// Entry `i` of the fan-out table: the number of hashes whose first byte is
/// at most `i`.
pub open spec fn fan_out_at(data: Seq<u8>, i: int) -> int {
    u32_in(data, 8 + 4 * i)
}

/// The number of hashes whose first byte is exactly `p`, by the fan-out table.
pub open spec fn fan_out_delta(data: Seq<u8>, p: int) -> int {
    if p <= 0 {
        fan_out_at(data, 0)
    } else {
        fan_out_at(data, p) - fan_out_at(data, p - 1)
    }
}

/// The number of objects that an index file lists: the last entry of its
/// fan-out table.
pub open spec fn idx_count(data: Seq<u8>) -> int {
    fan_out_at(data, 255)
}

/// The number of entries in the table of large offsets: what is left of the
/// file behind the three tables and before the two trailers.
pub open spec fn large_count(data: Seq<u8>) -> int {
    (data.len() - 1072 - 28 * idx_count(data)) / 8
}

/// Where the table of large offsets starts.
pub open spec fn large_start(data: Seq<u8>) -> int {
    1032 + 28 * idx_count(data)
}

/// The offset entry of object `i` as it stands in the file.
pub open spec fn raw_offset(data: Seq<u8>, i: int) -> int {
    u32_in(data, 1032 + 24 * idx_count(data) + 4 * i)
}

/// The offset of object `i`: its offset entry, or where that has its highest
/// bit set, the entry of the table of large offsets that its low 31 bits name.
pub open spec fn offset_of(data: Seq<u8>, i: int) -> int {
    let raw = raw_offset(data, i);
    if raw < 0x8000_0000 {
        raw
    } else {
        let at = large_start(data) + 8 * (raw - 0x8000_0000);
        u32_in(data, at) * 0x1_0000_0000 + u32_in(data, at + 4)
    }
}

/// Entry `i` of an index file.
pub open spec fn item_at(data: Seq<u8>, i: int) -> ItemView {
    ItemView {
        id: data.subrange(1032 + 20 * i, 1052 + 20 * i),
        crc32: u32_in(data, 1032 + 20 * idx_count(data) + 4 * i) as u32,
        offset: offset_of(data, i) as u64,
    }
}

/// Whether a byte string is laid out as an index file: the magic, version 2,
/// a fan-out table that never decreases, a length that fits the tables and
/// the trailers, and large offsets that exist where they are named.
pub open spec fn idx_layout_ok(data: Seq<u8>) -> bool {
    &&& data.len() >= 1032
    &&& data.subrange(0, 4) == idx_magic()
    &&& u32_in(data, 4) == 2
    &&& forall|p: int| 0 < p < 256 ==> fan_out_at(data, p - 1) <= #[trigger] fan_out_at(data, p)
    &&& data.len() >= 1072 + 28 * idx_count(data)
    &&& (data.len() - 1072 - 28 * idx_count(data)) % 8 == 0
    &&& forall|i: int|
        0 <= i < idx_count(data) ==> #[trigger] raw_offset(data, i) < 0x8000_0000 + large_count(
            data,
        )
}

/// What decoding an index file yields.
pub open spec fn idx_decode_spec(data: Seq<u8>) -> Result<IdxView, ErrorView> {
    if idx_layout_ok(data) {
        Ok(
            IdxView {
                version: 2,
                number_of_objects: idx_count(data) as nat,
                map_of_prefix: prefix_counts(data, 256),
                idx_items: Seq::new(idx_count(data) as nat, |i: int| item_at(data, i)),
                pack_signature: data.subrange(data.len() - 40, data.len() - 20),
                idx_signature: data.subrange(data.len() - 20, data.len() as int),
                file_data: data,
            },
        )
    } else {
        Err(ErrorView::InvalidIdxFile)
    }
}

/// Reads the big-endian `u32` at `pos`, which must lie within the input.
fn u32_in_range(data: &[u8], pos: u64) -> (value: u32)
    requires
        pos + 4 <= data@.len(),
    ensures
        value == u32_in(data@, pos as int),
{
    reveal(u32_in);
    let len = data.len();
    match read_u32(data, pos as usize) {
        Ok((value, _)) => value,
        Err(_) => 0,
    }
}

/// Reads the fan-out table: checks that it never decreases and collects the
/// counts that are not zero.
fn read_fan_out(data: &[u8]) -> (r: Option<(HashMap<u8, usize>, u32)>)
    requires
        data@.len() >= 1032,
    ensures
        r is Some <==> forall|p: int|
            0 < p < 256 ==> fan_out_at(data@, p - 1) <= #[trigger] fan_out_at(data@, p),
        r matches Some((counts, n)) ==> n == idx_count(data@) && counts@ == prefix_counts(
            data@,
            256,
        ),
{
    let mut counts: HashMap<u8, usize> = HashMap::new();
    let mut previous: u32 = 0;
    let mut p: usize = 0;
    proof {
        assert(counts@ =~= prefix_counts(data@, 0));
    }
    while p < 256
        invariant
            p <= 256,
            data@.len() >= 1032,
            p > 0 ==> previous == fan_out_at(data@, p - 1),
            p == 0 ==> previous == 0,
            forall|q: int| 0 < q < p ==> fan_out_at(data@, q - 1) <= #[trigger] fan_out_at(data@, q),
            counts@ == prefix_counts(data@, p as int),
        decreases 256 - p,
    {
        let current = u32_in_range(data, 8 + 4 * (p as u64));
        if current < previous {
            proof {
                assert(fan_out_at(data@, p as int) < fan_out_at(data@, p - 1));
            }
            return None;
        }
        let ghost before = counts@;
        if current != previous {
            counts.insert(p as u8, (current - previous) as usize);
        }
        proof {
            assert(fan_out_delta(data@, p as int) == current - previous);
            assert forall|q: u8| counts@.contains_key(q) == prefix_counts(
                data@,
                p + 1,
            ).contains_key(q) by {
                assert(before.contains_key(q) == prefix_counts(data@, p as int).contains_key(q));
            }
            assert forall|q: u8| counts@.contains_key(q) implies counts@[q] == prefix_counts(
                data@,
                p + 1,
            )[q] by {
                if q != p {
                    assert(before.contains_key(q));
                    assert(before[q] == prefix_counts(data@, p as int)[q]);
                }
            }
            assert(counts@ =~= prefix_counts(data@, p + 1));
        }
        previous = current;
        p += 1;
    }
    Some((counts, previous))
}

/// Reads entry `i` of an index file whose layout up to the tables has been
/// checked.
fn read_item(data: &[u8], n: u32, large: u64, i: u32) -> (r: Option<IdxItem>)
    requires
        n == idx_count(data@),
        large == large_count(data@),
        data@.len() == 1072 + 28 * n + 8 * large,
        i < n,
    ensures
        r is Some <==> raw_offset(data@, i as int) < 0x8000_0000 + large,
        r matches Some(item) ==> item@ == item_at(data@, i as int),
{
    let len = data.len();
    let count = n as u64;
    let at = i as u64;
    let id = match read_hash(data, (IDX_HASHES_START + 20 * at) as usize) {
        Ok((id, _)) => id,
        Err(_) => {
            return None;
        },
    };
    let crc32 = u32_in_range(data, IDX_HASHES_START + 20 * count + 4 * at);
    let raw = u32_in_range(data, IDX_HASHES_START + 24 * count + 4 * at);
    let offset = if raw < LARGE_OFFSET {
        raw as u64
    } else {
        let k = (raw - LARGE_OFFSET) as u64;
        if k >= large {
            return None;
        }
        let place = IDX_HASHES_START + 28 * count + 8 * k;
        let high = u32_in_range(data, place);
        let low = u32_in_range(data, place + 4);
        (high as u64) * 0x1_0000_0000 + low as u64
    };
    Some(IdxItem { id, crc32, offset })
}

/// Reads the entries of an index file whose layout up to the tables has
/// been checked.
fn read_items(data: &[u8], n: u32, large: u64) -> (r: Option<Vec<IdxItem>>)
    requires
        n == idx_count(data@),
        large == large_count(data@),
        data@.len() == 1072 + 28 * n + 8 * large,
    ensures
        r is Some <==> forall|i: int|
            0 <= i < idx_count(data@) ==> #[trigger] raw_offset(data@, i) < 0x8000_0000
                + large_count(data@),
        r matches Some(items) ==> item_views(items@) == Seq::new(
            idx_count(data@) as nat,
            |i: int| item_at(data@, i),
        ),
{
    let mut items: Vec<IdxItem> = Vec::new();
    let mut i: u32 = 0;
    while i < n
        invariant
            i <= n,
            n == idx_count(data@),
            large == large_count(data@),
            data@.len() == 1072 + 28 * n + 8 * large,
            items@.len() == i,
            forall|k: int| 0 <= k < i ==> (#[trigger] items@[k])@ == item_at(data@, k),
            forall|k: int|
                0 <= k < i ==> #[trigger] raw_offset(data@, k) < 0x8000_0000 + large_count(data@),
        decreases n - i,
    {
        match read_item(data, n, large, i) {
            None => {
                proof {
                    assert(!(raw_offset(data@, i as int) < 0x8000_0000 + large_count(data@)));
                }
                return None;
            },
            Some(item) => {
                items.push(item);
            },
        }
        i += 1;
    }
    proof {
        assert(item_views(items@) =~= Seq::new(
            idx_count(data@) as nat,
            |i: int| item_at(data@, i),
        ));
    }
    Some(items)
}

/// What an index file holds, field by field.
struct Parts {
    counts: HashMap<u8, usize>,
    n: u32,
    items: Vec<IdxItem>,
    pack_signature: hash::Hash,
    idx_signature: hash::Hash,
}

/// Checks the layout of an index file and reads its fields.
fn read_parts(data: &[u8]) -> (r: Option<Parts>)
    ensures
        r is Some <==> idx_layout_ok(data@),
        r matches Some(parts) ==> parts.n == idx_count(data@) && parts.counts@ == prefix_counts(
            data@,
            256,
        ) && item_views(parts.items@) == Seq::new(
            idx_count(data@) as nat,
            |i: int| item_at(data@, i),
        ) && parts.pack_signature@ == data@.subrange(data@.len() - 40, data@.len() - 20)
            && parts.idx_signature@ == data@.subrange(data@.len() - 20, data@.len() as int),
{
    if data.len() < 1032 {
        return None;
    }
    if !(data[0] == 0xff && data[1] == 0x74 && data[2] == 0x4f && data[3] == 0x63) {
        proof {
            let m = data@.subrange(0, 4);
            if m == idx_magic() {
                assert(m[0] == 0xff && m[1] == 0x74 && m[2] == 0x4f && m[3] == 0x63);
            }
        }
        return None;
    }
    proof {
        assert(data@.subrange(0, 4) =~= idx_magic());
    }
    if u32_in_range(data, 4) != 2 {
        return None;
    }
    let (counts, n) = match read_fan_out(data) {
        Some(x) => x,
        None => {
            return None;
        },
    };
    let len = data.len() as u64;
    let tables = 1072 + 28 * (n as u64);
    if len < tables || (len - tables) % 8 != 0 {
        return None;
    }
    let large = (len - tables) / 8;
    let items = match read_items(data, n, large) {
        Some(items) => items,
        None => {
            return None;
        },
    };
    let at = data.len() - 40;
    let pack_signature = match read_hash(data, at) {
        Ok((h, _)) => h,
        Err(_) => {
            return None;
        },
    };
    let idx_signature = match read_hash(data, at + 20) {
        Ok((h, _)) => h,
        Err(_) => {
            return None;
        },
    };
    Some(Parts { counts, n, items, pack_signature, idx_signature })
}

impl Idx {
    /// An index that lists nothing.
    pub fn new() -> (idx: Idx)
        ensures
            idx@.version == 0,
            idx@.number_of_objects == 0,
            idx@.map_of_prefix == Map::<u8, usize>::empty(),
            idx@.idx_items == Seq::<ItemView>::empty(),
            idx@.file_data == Seq::<u8>::empty(),
    {
        let idx = Idx {
            version: 0,
            number_of_objects: 0,
            map_of_prefix: HashMap::new(),
            idx_items: Vec::new(),
            pack_signature: hash::Hash::zero(),
            idx_signature: hash::Hash::zero(),
            _file_data: Vec::new(),
        };
        proof {
            assert(idx@.idx_items =~= Seq::<ItemView>::empty());
        }
        idx
    }

    /// The fan-out prefix of the hashes that start with the byte `n`: the
    /// byte as two hexadecimal digits.
    pub fn sha1_prefix(&self, n: usize) -> (prefix: String)
        requires
            n < 256,
        ensures
            prefix@ == hash::hex_of(seq![n as u8]),
            prefix@.len() == 2,
    {
        let mut bytes = [0u8; 20];
        bytes[0] = n as u8;
        let prefix = hash::Hash(bytes).to_folder();
        proof {
            assert(hash::Hash(bytes)@.subrange(0, 1) =~= seq![n as u8]);
        }
        prefix
    }

    /// Decodes an index file into `self`. An input that is not laid out as an
    /// index file is rejected and leaves `self` as it was.
    pub fn decode(&mut self, data: Vec<u8>) -> (r: Result<(), GitError>)
        ensures
            match r {
                Ok(()) => idx_decode_spec(data@) == Ok::<_, ErrorView>(final(self)@),
                Err(e) => idx_decode_spec(data@) == Err::<IdxView, _>(e@) && final(self)@ == old(
                    self,
                )@,
            },
    {
        match read_parts(data.as_slice()) {
            None => Err(GitError::InvalidIdxFile),
            Some(parts) => {
                self.version = 2;
                self.number_of_objects = parts.n as usize;
                self.map_of_prefix = parts.counts;
                self.idx_items = parts.items;
                self.pack_signature = parts.pack_signature;
                self.idx_signature = parts.idx_signature;
                self._file_data = data;
                Ok(())
            },
        }
    }
}

impl Default for Idx {
    /// An index that lists nothing.
    fn default() -> (idx: Idx)
        ensures
            idx@.version == 0,
            idx@.number_of_objects == 0,
            idx@.map_of_prefix == Map::<u8, usize>::empty(),
            idx@.idx_items == Seq::<ItemView>::empty(),
            idx@.file_data == Seq::<u8>::empty(),
    {
        Idx::new()
    }
}

} // verus!
