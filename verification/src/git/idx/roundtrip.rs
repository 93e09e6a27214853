//! Why an index file that was written reads back as the index it was written
//! from.

use vstd::prelude::*;
use crate::errors::ErrorView;
use crate::git::idx::encode::{
    concat, count_eq, count_le, crc_chunks, fan_out_chunks, first_byte_counts, hash_chunks,
    idx_body, lemma_fan_out, offset_chunks,
};
use crate::git::idx::{
    fan_out_at, fan_out_delta, idx_count, idx_decode_spec, idx_layout_ok, idx_magic, item_at,
    large_count, prefix_counts, raw_offset, u32_in, IdxView, ItemView,
};
use crate::utils::{lemma_u32_bytes_read_back, u32_bytes};

verus! {

/// Chunks of four bytes each lie in their concatenation one behind the other.
proof fn lemma_concat_of_four(chunks: Seq<Seq<u8>>, i: int)
    requires
        forall|k: int| 0 <= k < chunks.len() ==> (#[trigger] chunks[k]).len() == 4,
        0 <= i < chunks.len(),
    ensures
        concat(chunks).len() == 4 * chunks.len(),
        concat(chunks).subrange(4 * i, 4 * i + 4) == chunks[i],
    decreases chunks.len(),
{
    let rest = chunks.drop_last();
    assert forall|k: int| 0 <= k < rest.len() implies (#[trigger] rest[k]).len() == 4 by {
        assert(rest[k] == chunks[k]);
    }
    if rest.len() > 0 {
        lemma_concat_of_four(rest, if i < rest.len() {
            i
        } else {
            0
        });
    }
    assert(concat(rest).len() == 4 * rest.len());
    if i < rest.len() {
        assert(concat(chunks).subrange(4 * i, 4 * i + 4) =~= concat(rest).subrange(
            4 * i,
            4 * i + 4,
        ));
        assert(rest[i] == chunks[i]);
    } else {
        assert(concat(chunks).subrange(4 * i, 4 * i + 4) =~= chunks[i]);
    }
}

/// Chunks of twenty bytes each lie in their concatenation one behind the
/// other.
proof fn lemma_concat_of_twenty(chunks: Seq<Seq<u8>>, i: int)
    requires
        forall|k: int| 0 <= k < chunks.len() ==> (#[trigger] chunks[k]).len() == 20,
        0 <= i < chunks.len(),
    ensures
        concat(chunks).len() == 20 * chunks.len(),
        concat(chunks).subrange(20 * i, 20 * i + 20) == chunks[i],
    decreases chunks.len(),
{
    let rest = chunks.drop_last();
    assert forall|k: int| 0 <= k < rest.len() implies (#[trigger] rest[k]).len() == 20 by {
        assert(rest[k] == chunks[k]);
    }
    if rest.len() > 0 {
        lemma_concat_of_twenty(rest, if i < rest.len() {
            i
        } else {
            0
        });
    }
    assert(concat(rest).len() == 20 * rest.len());
    if i < rest.len() {
        assert(concat(chunks).subrange(20 * i, 20 * i + 20) =~= concat(rest).subrange(
            20 * i,
            20 * i + 20,
        ));
        assert(rest[i] == chunks[i]);
    } else {
        assert(concat(chunks).subrange(20 * i, 20 * i + 20) =~= chunks[i]);
    }
}

/// The length of a concatenation of chunks of four bytes, also where there
/// are none.
proof fn lemma_len_of_four(chunks: Seq<Seq<u8>>)
    requires
        forall|k: int| 0 <= k < chunks.len() ==> (#[trigger] chunks[k]).len() == 4,
    ensures
        concat(chunks).len() == 4 * chunks.len(),
{
    if chunks.len() > 0 {
        lemma_concat_of_four(chunks, 0);
    }
}

/// The length of a concatenation of chunks of twenty bytes, also where there
/// are none.
proof fn lemma_len_of_twenty(chunks: Seq<Seq<u8>>)
    requires
        forall|k: int| 0 <= k < chunks.len() ==> (#[trigger] chunks[k]).len() == 20,
    ensures
        concat(chunks).len() == 20 * chunks.len(),
{
    if chunks.len() > 0 {
        lemma_concat_of_twenty(chunks, 0);
    }
}

/// A piece of the middle of three byte strings is a piece of their
/// concatenation.
proof fn lemma_piece(before: Seq<u8>, mid: Seq<u8>, after: Seq<u8>, a: int, b: int)
    requires
        0 <= a <= b <= mid.len(),
    ensures
        (before + mid + after).subrange(before.len() + a, before.len() + b) == mid.subrange(a, b),
{
    assert((before + mid + after).subrange(before.len() + a, before.len() + b) =~= mid.subrange(
        a,
        b,
    ));
}

/// What holds of the entries of an index that can be written.
pub open spec fn writable(items: Seq<ItemView>) -> bool {
    &&& items.len() <= u32::MAX
    &&& forall|k: int| 0 <= k < items.len() ==> (#[trigger] items[k]).id.len() == 20
    &&& forall|k: int| 0 <= k < items.len() ==> (#[trigger] items[k]).offset < 0x8000_0000
}

/// The pieces of an index file and where each of them starts.
pub struct Pieces {
    pub fan: Seq<u8>,
    pub hashes: Seq<u8>,
    pub crcs: Seq<u8>,
    pub offsets: Seq<u8>,
}

pub open spec fn pieces(items: Seq<ItemView>) -> Pieces {
    Pieces {
        fan: concat(fan_out_chunks(items)),
        hashes: concat(hash_chunks(items)),
        crcs: concat(crc_chunks(items)),
        offsets: concat(offset_chunks(items)),
    }
}

/// The lengths of the pieces.
proof fn lemma_piece_lengths(items: Seq<ItemView>)
    requires
        writable(items),
    ensures
        pieces(items).fan.len() == 1024,
        pieces(items).hashes.len() == 20 * items.len(),
        pieces(items).crcs.len() == 4 * items.len(),
        pieces(items).offsets.len() == 4 * items.len(),
{
    lemma_len_of_four(fan_out_chunks(items));
    lemma_len_of_twenty(hash_chunks(items));
    lemma_len_of_four(crc_chunks(items));
    lemma_len_of_four(offset_chunks(items));
}

/// Entry `i` of the fan-out table of a written file is the number of hashes
/// whose first byte is at most `i`.
proof fn lemma_written_fan_out(
    items: Seq<ItemView>,
    pack_signature: Seq<u8>,
    idx_signature: Seq<u8>,
    i: int,
)
    requires
        writable(items),
        0 <= i < 256,
    ensures
        fan_out_at(idx_body(items, pack_signature) + idx_signature, i) == count_le(items, i),
{
    reveal(u32_in);
    let file = idx_body(items, pack_signature) + idx_signature;
    let p = pieces(items);
    lemma_piece_lengths(items);
    let before = idx_magic() + u32_bytes(2);
    let after = p.hashes + p.crcs + p.offsets + pack_signature + idx_signature;
    assert(file =~= before + p.fan + after);
    lemma_piece(before, p.fan, after, 4 * i, 4 * i + 4);
    lemma_concat_of_four(fan_out_chunks(items), i);
    lemma_fan_out(items, i);
    lemma_u32_bytes_read_back(count_le(items, i) as u32);
}

/// The version of a written file is 2 and its magic is the magic.
proof fn lemma_written_head(items: Seq<ItemView>, pack_signature: Seq<u8>, idx_signature: Seq<u8>)
    requires
        writable(items),
        pack_signature.len() == 20,
        idx_signature.len() == 20,
    ensures
        (idx_body(items, pack_signature) + idx_signature).len() == 1072 + 28 * (items.len() as int),
        (idx_body(items, pack_signature) + idx_signature).subrange(0, 4) == idx_magic(),
        u32_in(idx_body(items, pack_signature) + idx_signature, 4) == 2,
        (idx_body(items, pack_signature) + idx_signature).subrange(
            1032 + 28 * (items.len() as int),
            1052 + 28 * (items.len() as int),
        ) == pack_signature,
        (idx_body(items, pack_signature) + idx_signature).subrange(
            1052 + 28 * (items.len() as int),
            1072 + 28 * (items.len() as int),
        ) == idx_signature,
{
    reveal(u32_in);
    let file = idx_body(items, pack_signature) + idx_signature;
    lemma_piece_lengths(items);
    lemma_u32_bytes_read_back(2);
    assert(file.subrange(0, 4) =~= idx_magic());
    assert(file.subrange(4, 8) =~= u32_bytes(2));
    assert(file.subrange(1032 + 28 * (items.len() as int), 1052 + 28 * (items.len() as int)) =~= pack_signature);
    assert(file.subrange(1052 + 28 * (items.len() as int), 1072 + 28 * (items.len() as int)) =~= idx_signature);
}

/// The hash of entry `i` of a written file.
proof fn lemma_written_hash(
    items: Seq<ItemView>,
    pack_signature: Seq<u8>,
    idx_signature: Seq<u8>,
    i: int,
)
    requires
        writable(items),
        0 <= i < items.len(),
    ensures
        (idx_body(items, pack_signature) + idx_signature).subrange(1032 + 20 * i, 1052 + 20 * i)
            == items[i].id,
{
    let file = idx_body(items, pack_signature) + idx_signature;
    let p = pieces(items);
    lemma_piece_lengths(items);
    let before = idx_magic() + u32_bytes(2) + p.fan;
    let after = p.crcs + p.offsets + pack_signature + idx_signature;
    assert(file =~= before + p.hashes + after);
    lemma_piece(before, p.hashes, after, 20 * i, 20 * i + 20);
    lemma_concat_of_twenty(hash_chunks(items), i);
}

/// The checksum of entry `i` of a written file.
proof fn lemma_written_crc(
    items: Seq<ItemView>,
    pack_signature: Seq<u8>,
    idx_signature: Seq<u8>,
    i: int,
)
    requires
        writable(items),
        0 <= i < items.len(),
    ensures
        u32_in(idx_body(items, pack_signature) + idx_signature, 1032 + 20 * items.len() + 4 * i)
            == items[i].crc32,
{
    reveal(u32_in);
    let file = idx_body(items, pack_signature) + idx_signature;
    let p = pieces(items);
    lemma_piece_lengths(items);
    let before = idx_magic() + u32_bytes(2) + p.fan + p.hashes;
    let after = p.offsets + pack_signature + idx_signature;
    assert(file =~= before + p.crcs + after);
    lemma_piece(before, p.crcs, after, 4 * i, 4 * i + 4);
    lemma_concat_of_four(crc_chunks(items), i);
    lemma_u32_bytes_read_back(items[i].crc32);
}

/// The offset entry of entry `i` of a written file.
proof fn lemma_written_offset(
    items: Seq<ItemView>,
    pack_signature: Seq<u8>,
    idx_signature: Seq<u8>,
    i: int,
)
    requires
        writable(items),
        0 <= i < items.len(),
    ensures
        u32_in(idx_body(items, pack_signature) + idx_signature, 1032 + 24 * items.len() + 4 * i)
            == items[i].offset,
{
    reveal(u32_in);
    let file = idx_body(items, pack_signature) + idx_signature;
    let p = pieces(items);
    lemma_piece_lengths(items);
    let before = idx_magic() + u32_bytes(2) + p.fan + p.hashes + p.crcs;
    let after = pack_signature + idx_signature;
    assert(file =~= before + p.offsets + after);
    lemma_piece(before, p.offsets, after, 4 * i, 4 * i + 4);
    lemma_concat_of_four(offset_chunks(items), i);
    lemma_u32_bytes_read_back(items[i].offset as u32);
}

/// Decoding an index file that was written from entries and two trailers
/// yields exactly those entries and trailers, with the counts by first byte.
pub proof fn lemma_decode_of_encoded(
    items: Seq<ItemView>,
    pack_signature: Seq<u8>,
    idx_signature: Seq<u8>,
)
    requires
        writable(items),
        pack_signature.len() == 20,
        idx_signature.len() == 20,
    ensures
        idx_decode_spec(idx_body(items, pack_signature) + idx_signature) == Ok::<_, ErrorView>(
            IdxView {
                version: 2,
                number_of_objects: items.len(),
                map_of_prefix: first_byte_counts(items, 256),
                idx_items: items,
                pack_signature,
                idx_signature,
                file_data: idx_body(items, pack_signature) + idx_signature,
            },
        ),
{
    let file = idx_body(items, pack_signature) + idx_signature;
    let n = items.len() as int;
    lemma_written_head(items, pack_signature, idx_signature);
    assert forall|i: int| 0 <= i < 256 implies #[trigger] fan_out_at(file, i) == count_le(
        items,
        i,
    ) by {
        lemma_written_fan_out(items, pack_signature, idx_signature, i);
    }
    lemma_fan_out(items, 255);
    assert(idx_count(file) == n);
    assert forall|p: int| 0 < p < 256 implies fan_out_at(file, p - 1) <= #[trigger] fan_out_at(
        file,
        p,
    ) by {
        lemma_fan_out(items, p - 1);
        assert(fan_out_at(file, p - 1) == count_le(items, p - 1));
    }
    assert(large_count(file) == 0);
    assert forall|i: int| 0 <= i < n implies #[trigger] raw_offset(file, i) == items[i].offset by {
        lemma_written_offset(items, pack_signature, idx_signature, i);
    }
    assert(idx_layout_ok(file));
    assert forall|i: int| 0 <= i < n implies item_at(file, i) == items[i] by {
        lemma_written_hash(items, pack_signature, idx_signature, i);
        lemma_written_crc(items, pack_signature, idx_signature, i);
        assert(raw_offset(file, i) == items[i].offset);
    }
    assert(Seq::new(idx_count(file) as nat, |i: int| item_at(file, i)) =~= items);
    assert forall|p: u8| fan_out_delta(file, p as int) == count_eq(items, p as int) by {
        lemma_fan_out(items, p as int - 1);
        assert(fan_out_at(file, p as int) == count_le(items, p as int));
        if p > 0 {
            assert(fan_out_at(file, p as int - 1) == count_le(items, p as int - 1));
        }
    }
    assert(prefix_counts(file, 256) =~= first_byte_counts(items, 256));
}

} // verus!
