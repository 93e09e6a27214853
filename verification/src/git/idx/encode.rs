//! Writing the index of a decoded pack.

use vstd::prelude::*;
use std::collections::HashMap;
use crate::errors::{ErrorView, GitError};
use crate::git::hash;
use crate::git::hash::{be_value, sha1_digest};
use crate::git::idx::sort::{represented, sort_items};
use crate::git::idx::roundtrip::{lemma_decode_of_encoded, writable};
use crate::git::idx::{idx_decode_spec, idx_magic, item_views, Idx, IdxItem, ItemView};
use crate::git::pack::cache::{names_offset, CacheView, PackObjectCache};
use crate::git::pack::Pack;
use crate::utils::{u32_bytes, u32_vec};

verus! {

broadcast use vstd::std_specs::hash::group_hash_axioms;

/// Whether the hashes of the entries ascend strictly.
pub open spec fn ascending(items: Seq<ItemView>) -> bool {
    forall|i: int, j: int|
        0 <= i < j < items.len() ==> be_value((#[trigger] items[i]).id) < be_value(
            (#[trigger] items[j]).id,
        )
}

/// Whether `items` holds an entry for the hash `h` with an offset of at most
/// `o`.
pub open spec fn lists_hash(items: Seq<ItemView>, h: Seq<u8>, o: u64) -> bool {
    exists|m: int| 0 <= m < items.len() && (#[trigger] items[m]).id == h && items[m].offset <= o
}

/// Whether `items` lists the objects that a pack holds: every entry is an
/// object of the pack with its hash, checksum and offset, and every object of
/// the pack has an entry under its hash, with the least of the offsets at
/// which that hash occurs.
pub open spec fn lists_objects(items: Seq<ItemView>, cache: CacheView) -> bool {
    &&& forall|k: int|
        0 <= k < items.len() ==> cache.by_offset.contains_key((#[trigger] items[k]).offset)
            && cache.by_offset[items[k].offset].hash == items[k].id
            && cache.by_offset[items[k].offset].crc32 == items[k].crc32
    &&& forall|o: u64| #[trigger]
        cache.by_offset.contains_key(o) ==> lists_hash(items, cache.by_offset[o].hash, o)
}

/// The number of entries whose hash starts with the byte `b`.
pub open spec fn count_eq(items: Seq<ItemView>, b: int) -> nat
    decreases items.len(),
{
    if items.len() == 0 {
        0
    } else {
        count_eq(items.drop_last(), b) + if items.last().id[0] == b {
            1nat
        } else {
            0nat
        }
    }
}

/// Entry `b` of the fan-out table: the number of entries whose hash starts
/// with a byte of at most `b`.
pub open spec fn count_le(items: Seq<ItemView>, b: int) -> nat
    decreases items.len(),
{
    if items.len() == 0 {
        0
    } else {
        count_le(items.drop_last(), b) + if items.last().id[0] <= b {
            1nat
        } else {
            0nat
        }
    }
}

/// For every first byte that occurs, the number of hashes that start with it.
pub open spec fn first_byte_counts(items: Seq<ItemView>, upto: int) -> Map<u8, usize> {
    Map::new(
        |p: u8| p < upto && count_eq(items, p as int) != 0,
        |p: u8| count_eq(items, p as int) as usize,
    )
}

/// The fan-out table accumulates the counts by first byte: it starts at the
/// count of byte 0, grows by the count of each further byte, never decreases,
/// and ends at the number of entries.
pub proof fn lemma_fan_out(items: Seq<ItemView>, b: int)
    ensures
        count_le(items, 0) == count_eq(items, 0),
        count_le(items, b + 1) == count_le(items, b) + count_eq(items, b + 1),
        count_le(items, b) <= count_le(items, b + 1),
        count_eq(items, b) <= items.len(),
        count_le(items, b) <= items.len(),
        b >= 255 ==> count_le(items, b) == items.len(),
    decreases items.len(),
{
    if items.len() > 0 {
        lemma_fan_out(items.drop_last(), b);
    }
}

/// The byte strings of `chunks` one behind the other.
pub open spec fn concat(chunks: Seq<Seq<u8>>) -> Seq<u8>
    decreases chunks.len(),
{
    if chunks.len() == 0 {
        Seq::empty()
    } else {
        concat(chunks.drop_last()) + chunks.last()
    }
}

/// The entries of the fan-out table, four bytes each.
pub open spec fn fan_out_chunks(items: Seq<ItemView>) -> Seq<Seq<u8>> {
    Seq::new(256, |i: int| u32_bytes(count_le(items, i) as u32))
}

/// The hashes of the entries.
pub open spec fn hash_chunks(items: Seq<ItemView>) -> Seq<Seq<u8>> {
    Seq::new(items.len(), |i: int| items[i].id)
}

/// The checksums of the entries, four bytes each.
pub open spec fn crc_chunks(items: Seq<ItemView>) -> Seq<Seq<u8>> {
    Seq::new(items.len(), |i: int| u32_bytes(items[i].crc32))
}

/// The offsets of the entries, four bytes each.
pub open spec fn offset_chunks(items: Seq<ItemView>) -> Seq<Seq<u8>> {
    Seq::new(items.len(), |i: int| u32_bytes(items[i].offset as u32))
}

/// An index file without its own trailer: the magic, version 2, the fan-out
/// table, the hashes, the checksums, the offsets and the trailer of the pack.
pub open spec fn idx_body(items: Seq<ItemView>, pack_signature: Seq<u8>) -> Seq<u8> {
    idx_magic() + u32_bytes(2) + concat(fan_out_chunks(items)) + concat(hash_chunks(items))
        + concat(crc_chunks(items)) + concat(offset_chunks(items)) + pack_signature
}

/// An index file: its body, sealed by the digest of the body.
pub open spec fn idx_file(items: Seq<ItemView>, pack_signature: Seq<u8>) -> Seq<u8> {
    idx_body(items, pack_signature) + sha1_digest(idx_body(items, pack_signature))
}

/// Whether an index can be written for a cache: every offset fits the 31 bits
/// of an offset entry, and the number of offsets fits a fan-out entry.
pub open spec fn encodable(cache: CacheView) -> bool {
    &&& forall|o: u64| #[trigger] cache.by_offset.contains_key(o) ==> o < 0x8000_0000
    &&& cache.by_offset.dom().len() <= u32::MAX
}

/// The entries for the objects of a cache, in no particular order.
fn collect_items(cache: &PackObjectCache) -> (r: Option<Vec<IdxItem>>)
    ensures
        r is Some <==> forall|o: u64| #[trigger] cache@.by_offset.contains_key(o) ==> o < 0x8000_0000,
        r matches Some(items) ==> (forall|k: int|
            0 <= k < items@.len() ==> cache@.by_offset.contains_key((#[trigger] items@[k]).offset)
                && cache@.by_offset[items@[k].offset].hash == items@[k].id@
                && cache@.by_offset[items@[k].offset].crc32 == items@[k].crc32) && (forall|o: u64|
         #[trigger]
            cache@.by_offset.contains_key(o) ==> exists|k: int|
                0 <= k < items@.len() && (#[trigger] items@[k]).offset == o),
{
    let list = cache.entries();
    let mut items: Vec<IdxItem> = Vec::new();
    let mut i: usize = 0;
    while i < list.len()
        invariant
            i <= list@.len(),
            items@.len() == i,
            forall|k: int|
                0 <= k < list@.len() ==> cache@.by_offset.contains_key((#[trigger] list@[k]).0)
                    && cache@.by_offset[list@[k].0].hash == list@[k].1@
                    && cache@.by_offset[list@[k].0].crc32 == list@[k].2,
            forall|k: int|
                0 <= k < i ==> (#[trigger] items@[k]).offset == list@[k].0 && items@[k].id
                    == list@[k].1 && items@[k].crc32 == list@[k].2 && items@[k].offset
                    < 0x8000_0000,
        decreases list@.len() - i,
    {
        let (offset, id, crc32) = list[i];
        if offset >= 0x8000_0000 {
            proof {
                assert(cache@.by_offset.contains_key(list@[i as int].0));
            }
            return None;
        }
        items.push(IdxItem { id, crc32, offset });
        i += 1;
    }
    proof {
        assert forall|o: u64| #[trigger] cache@.by_offset.contains_key(o) implies o < 0x8000_0000
            && exists|k: int| 0 <= k < items@.len() && (#[trigger] items@[k]).offset == o by {
            assert(names_offset(list@, o));
            let k = choose|k: int| 0 <= k < list@.len() && (#[trigger] list@[k]).0 == o;
            assert(items@[k].offset == o);
        }
    }
    Some(items)
}

/// Entries with strictly ascending hashes, each of which is an object of the
/// cache, are no more than the cache has offsets.
proof fn lemma_entries_fit(items: Seq<ItemView>, cache: CacheView)
    requires
        ascending(items),
        cache.by_offset.dom().finite(),
        forall|k: int|
            0 <= k < items.len() ==> cache.by_offset.contains_key((#[trigger] items[k]).offset)
                && cache.by_offset[items[k].offset].hash == items[k].id,
    ensures
        items.len() <= cache.by_offset.dom().len(),
{
    let offsets = Seq::new(items.len(), |k: int| items[k].offset);
    assert forall|i: int, j: int| 0 <= i < offsets.len() && 0 <= j < offsets.len() && i != j implies offsets[i]
        != offsets[j] by {
        if offsets[i] == offsets[j] {
            assert(items[i].id == items[j].id);
            if i < j {
                assert(be_value(items[i].id) < be_value(items[j].id));
            } else {
                assert(be_value(items[j].id) < be_value(items[i].id));
            }
        }
    }
    assert(offsets.no_duplicates());
    offsets.unique_seq_to_set();
    assert forall|o: u64| offsets.to_set().contains(o) implies cache.by_offset.dom().contains(o) by {
        let k = choose|k: int| 0 <= k < offsets.len() && offsets[k] == o;
        assert(cache.by_offset.contains_key(items[k].offset));
    }
    vstd::set_lib::lemma_len_subset(offsets.to_set(), cache.by_offset.dom());
}

/// Counting the first bytes of one more entry.
proof fn lemma_count_step(views: Seq<ItemView>, k: int, b: int)
    requires
        0 <= k < views.len(),
    ensures
        count_eq(views.take(k + 1), b) == count_eq(views.take(k), b) + if views[k].id[0] == b {
            1nat
        } else {
            0nat
        },
{
    assert(views.take(k + 1).drop_last() =~= views.take(k));
}

/// The number of entries by first byte.
fn count_first_bytes(items: &Vec<IdxItem>) -> (counts: Vec<u32>)
    requires
        items@.len() <= u32::MAX,
    ensures
        counts@.len() == 256,
        forall|b: int| 0 <= b < 256 ==> (#[trigger] counts@[b]) == count_eq(item_views(items@), b),
{
    let ghost views = item_views(items@);
    let mut counts: Vec<u32> = Vec::new();
    let mut b: usize = 0;
    while b < 256
        invariant
            b <= 256,
            counts@.len() == b,
            forall|c: int| 0 <= c < b ==> (#[trigger] counts@[c]) == 0,
        decreases 256 - b,
    {
        counts.push(0);
        b += 1;
    }
    let mut k: usize = 0;
    while k < items.len()
        invariant
            k <= items@.len(),
            items@.len() <= u32::MAX,
            views == item_views(items@),
            counts@.len() == 256,
            forall|c: int| 0 <= c < 256 ==> (#[trigger] counts@[c]) == count_eq(views.take(k as int), c),
        decreases items@.len() - k,
    {
        let first = items[k].id.get_first() as usize;
        proof {
            lemma_fan_out(views.take(k as int), first as int);
            assert forall|c: int| 0 <= c < 256 implies count_eq(views.take(k + 1), c) == count_eq(
                views.take(k as int),
                c,
            ) + if views[k as int].id[0] == c {
                1nat
            } else {
                0nat
            } by {
                lemma_count_step(views, k as int, c);
            }
        }
        let bumped = counts[first] + 1;
        counts[first] = bumped;
        k += 1;
    }
    proof {
        assert(views.take(items@.len() as int) =~= views);
    }
    counts
}

/// Appending one chunk to the chunks written so far.
proof fn lemma_concat_step(chunks: Seq<Seq<u8>>, k: int)
    requires
        0 <= k < chunks.len(),
    ensures
        concat(chunks.take(k + 1)) == concat(chunks.take(k)) + chunks[k],
{
    assert(chunks.take(k + 1).drop_last() =~= chunks.take(k));
}

/// Writes the fan-out table behind `out` and collects the counts by first
/// byte that are not zero.
fn write_fan_out(out: &mut Vec<u8>, items: &Vec<IdxItem>) -> (counts: HashMap<u8, usize>)
    requires
        items@.len() <= u32::MAX,
    ensures
        final(out)@ == old(out)@ + concat(fan_out_chunks(item_views(items@))),
        counts@ == first_byte_counts(item_views(items@), 256),
{
    let ghost views = item_views(items@);
    let ghost chunks = fan_out_chunks(views);
    let by_byte = count_first_bytes(items);
    let mut counts: HashMap<u8, usize> = HashMap::new();
    let mut sum: u32 = 0;
    let mut b: usize = 0;
    proof {
        assert(counts@ =~= first_byte_counts(views, 0));
        assert(out@ =~= old(out)@ + concat(chunks.take(0)));
    }
    while b < 256
        invariant
            b <= 256,
            views == item_views(items@),
            chunks == fan_out_chunks(views),
            items@.len() <= u32::MAX,
            by_byte@.len() == 256,
            forall|c: int| 0 <= c < 256 ==> (#[trigger] by_byte@[c]) == count_eq(views, c),
            b > 0 ==> sum == count_le(views, b - 1),
            b == 0 ==> sum == 0,
            out@ == old(out)@ + concat(chunks.take(b as int)),
            counts@ == first_byte_counts(views, b as int),
        decreases 256 - b,
    {
        let here = by_byte[b];
        proof {
            lemma_fan_out(views, b as int - 1);
            lemma_fan_out(views, b as int);
            lemma_concat_step(chunks, b as int);
        }
        sum = sum + here;
        let bytes = u32_vec(sum);
        out.extend_from_slice(bytes.as_slice());
        let ghost before = counts@;
        if here != 0 {
            counts.insert(b as u8, here as usize);
        }
        proof {
            assert(chunks[b as int] == u32_bytes(sum));
            assert(out@ =~= old(out)@ + concat(chunks.take(b + 1)));
            assert forall|q: u8| counts@.contains_key(q) == first_byte_counts(
                views,
                b + 1,
            ).contains_key(q) by {
                assert(before.contains_key(q) == first_byte_counts(views, b as int).contains_key(q));
            }
            assert forall|q: u8| counts@.contains_key(q) implies counts@[q] == first_byte_counts(
                views,
                b + 1,
            )[q] by {
                if q != b {
                    assert(before.contains_key(q));
                    assert(before[q] == first_byte_counts(views, b as int)[q]);
                }
            }
            assert(counts@ =~= first_byte_counts(views, b + 1));
        }
        b += 1;
    }
    proof {
        assert(chunks.take(256) =~= chunks);
    }
    counts
}

/// Writes the three tables of the entries behind `out`: the hashes, the
/// checksums and the offsets.
fn write_tables(out: &mut Vec<u8>, items: &Vec<IdxItem>)
    requires
        forall|k: int| 0 <= k < items@.len() ==> (#[trigger] items@[k]).offset < 0x8000_0000,
    ensures
        final(out)@ == old(out)@ + concat(hash_chunks(item_views(items@))) + concat(
            crc_chunks(item_views(items@)),
        ) + concat(offset_chunks(item_views(items@))),
{
    let ghost views = item_views(items@);
    let ghost n = views.len() as int;
    let mut k: usize = 0;
    proof {
        assert(out@ =~= old(out)@ + concat(hash_chunks(views).take(0)));
    }
    while k < items.len()
        invariant
            k <= items@.len(),
            views == item_views(items@),
            out@ == old(out)@ + concat(hash_chunks(views).take(k as int)),
        decreases items@.len() - k,
    {
        proof {
            lemma_concat_step(hash_chunks(views), k as int);
        }
        out.extend_from_slice(items[k].id.0.as_slice());
        proof {
            assert(out@ =~= old(out)@ + concat(hash_chunks(views).take(k + 1)));
        }
        k += 1;
    }
    let ghost after_hashes = out@;
    proof {
        assert(hash_chunks(views).take(n) =~= hash_chunks(views));
        assert(out@ =~= after_hashes + concat(crc_chunks(views).take(0)));
    }
    k = 0;
    while k < items.len()
        invariant
            k <= items@.len(),
            views == item_views(items@),
            out@ == after_hashes + concat(crc_chunks(views).take(k as int)),
        decreases items@.len() - k,
    {
        proof {
            lemma_concat_step(crc_chunks(views), k as int);
        }
        let bytes = u32_vec(items[k].crc32);
        out.extend_from_slice(bytes.as_slice());
        proof {
            assert(out@ =~= after_hashes + concat(crc_chunks(views).take(k + 1)));
        }
        k += 1;
    }
    let ghost after_crcs = out@;
    proof {
        assert(crc_chunks(views).take(n) =~= crc_chunks(views));
        assert(out@ =~= after_crcs + concat(offset_chunks(views).take(0)));
    }
    k = 0;
    while k < items.len()
        invariant
            k <= items@.len(),
            views == item_views(items@),
            forall|k: int| 0 <= k < items@.len() ==> (#[trigger] items@[k]).offset < 0x8000_0000,
            out@ == after_crcs + concat(offset_chunks(views).take(k as int)),
        decreases items@.len() - k,
    {
        proof {
            lemma_concat_step(offset_chunks(views), k as int);
        }
        let bytes = u32_vec(items[k].offset as u32);
        out.extend_from_slice(bytes.as_slice());
        proof {
            assert(out@ =~= after_crcs + concat(offset_chunks(views).take(k + 1)));
        }
        k += 1;
    }
    proof {
        assert(offset_chunks(views).take(n) =~= offset_chunks(views));
    }
}

/// The entries for the objects of a cache in the order of an index file.
fn sorted_items(cache: &PackObjectCache) -> (r: Option<Vec<IdxItem>>)
    ensures
        r is Some <==> encodable(cache@),
        r matches Some(items) ==> ascending(item_views(items@)) && lists_objects(
            item_views(items@),
            cache@,
        ) && writable(item_views(items@)),
{
    cache.validity();
    let collected = match collect_items(cache) {
        None => {
            return None;
        },
        Some(collected) => collected,
    };
    let items = sort_items(&collected);
    let ghost views = item_views(items@);
    proof {
        assert forall|k: int| 0 <= k < views.len() implies cache@.by_offset.contains_key(
            (#[trigger] views[k]).offset,
        ) && cache@.by_offset[views[k].offset].hash == views[k].id
            && cache@.by_offset[views[k].offset].crc32 == views[k].crc32 && views[k].id.len() == 20
            && views[k].offset < 0x8000_0000 by {
            assert(collected@.contains(items@[k]));
            let m = choose|m: int| 0 <= m < collected@.len() && collected@[m] == items@[k];
            assert(cache@.by_offset.contains_key(collected@[m].offset));
        }
        assert forall|i: int, j: int| 0 <= i < j < views.len() implies be_value(
            (#[trigger] views[i]).id,
        ) < be_value((#[trigger] views[j]).id) by {
            assert(items@[i].id.value() < items@[j].id.value());
        }
        assert forall|o: u64| #[trigger] cache@.by_offset.contains_key(o) implies lists_hash(
            views,
            cache@.by_offset[o].hash,
            o,
        ) by {
            let k = choose|k: int| 0 <= k < collected@.len() && (#[trigger] collected@[k]).offset == o;
            assert(represented(items@, collected@[k]));
            let m = choose|m: int|
                0 <= m < items@.len() && (#[trigger] items@[m]).id == collected@[k].id
                    && items@[m].offset <= collected@[k].offset;
            assert(views[m].id == cache@.by_offset[o].hash && views[m].offset <= o);
        }
        lemma_entries_fit(views, cache@);
    }
    if cache.len() > u32::MAX as usize {
        return None;
    }
    Some(items)
}

impl Idx {
    /// Writes the index of a decoded pack: one entry for every hash that
    /// occurs in the pack, in ascending order of the hashes, behind the
    /// fan-out table and before the two trailers. Decoding the file that is
    /// written yields the index that is returned. A pack with an offset that
    /// does not fit 31 bits is too large.
    pub fn encode(pack: Pack) -> (r: Result<Idx, GitError>)
        ensures
            match r {
                Ok(idx) => {
                    &&& encodable(pack@.cache)
                    &&& idx@.version == 2
                    &&& idx@.number_of_objects == idx@.idx_items.len()
                    &&& ascending(idx@.idx_items)
                    &&& lists_objects(idx@.idx_items, pack@.cache)
                    &&& idx@.map_of_prefix == first_byte_counts(idx@.idx_items, 256)
                    &&& idx@.pack_signature == pack@.signature
                    &&& idx@.idx_signature == sha1_digest(
                        idx_body(idx@.idx_items, pack@.signature),
                    )
                    &&& idx@.file_data == idx_file(idx@.idx_items, pack@.signature)
                    &&& idx_decode_spec(idx@.file_data) == Ok::<_, ErrorView>(idx@)
                },
                Err(e) => e == GitError::PackTooLarge && !encodable(pack@.cache),
            },
    {
        let items = match sorted_items(pack.get_cache()) {
            None => {
                return Err(GitError::PackTooLarge);
            },
            Some(items) => items,
        };
        let ghost views = item_views(items@);
        let pack_signature = pack.get_hash();
        let mut out: Vec<u8> = Vec::new();
        out.push(0xff);
        out.push(0x74);
        out.push(0x4f);
        out.push(0x63);
        let version = u32_vec(2);
        out.extend_from_slice(version.as_slice());
        proof {
            assert(out@ =~= idx_magic() + u32_bytes(2));
        }
        proof {
            assert forall|k: int| 0 <= k < items@.len() implies (#[trigger] items@[k]).offset
                < 0x8000_0000 by {
                assert(views[k].offset < 0x8000_0000);
            }
        }
        let counts = write_fan_out(&mut out, &items);
        write_tables(&mut out, &items);
        out.extend_from_slice(pack_signature.0.as_slice());
        proof {
            assert(out@ =~= idx_body(views, pack@.signature));
        }
        let idx_signature = hash::Hash::new(out.as_slice());
        out.extend_from_slice(idx_signature.0.as_slice());
        proof {
            assert(out@ =~= idx_file(views, pack@.signature));
            lemma_decode_of_encoded(views, pack_signature@, idx_signature@);
        }
        Ok(
            Idx {
                version: 2,
                number_of_objects: items.len(),
                map_of_prefix: counts,
                idx_items: items,
                pack_signature,
                idx_signature,
                _file_data: out,
            },
        )
    }
}

} // verus!
