//! The packfile codec: a twelve-byte header, the objects one after another,
//! each in full or as a delta against another object, and a 20-byte trailer.

pub mod cache;
pub mod decode;

use vstd::prelude::*;
use vstd::slice::slice_subrange;
use crate::errors::{ErrorView, GitError};
use crate::git::hash;
use crate::git::idx::{item_views, Idx, IdxItem, IdxView, ItemView};
use crate::git::object::delta::{apply_delta, delta_result};
use crate::git::object::types::{pack_type_of, ObjectType, PackObjectType};
use crate::git::object::{object_views, Object, ObjectView};
use crate::git::pack::cache::{CacheView, EntryView, PackObjectCache};
use crate::utils::{
    crc32, crc32_iso_hdlc, hash_at, header_type_code, known_type_code,
    lemma_offset_tail_advances, lemma_type_and_size_advances, offset_encoding_at, read_hash,
    read_offset_encoding, read_type_and_size, read_u32, read_zlib_stream_exact, type_and_size_at,
    u32_at, zlib_stream_at,
};

verus! {

/// The four bytes that open a pack: "PACK" in ASCII.
pub open spec fn pack_magic() -> Seq<u8> {
    seq![0x50u8, 0x41, 0x43, 0x4b]
}

/// What reading the header of the object at `offset` yields: how the object is
/// to be reconstructed, the size it announces and where its body starts.
pub open spec fn object_header_at(data: Seq<u8>, offset: int) -> Result<
    (PackObjectType, u64, int),
    ErrorView,
> {
    if 0 <= offset < data.len() && !known_type_code(header_type_code(data[offset])) {
        Err(ErrorView::InvalidObjectType)
    } else {
        match type_and_size_at(data, offset) {
            Err(e) => Err(e),
            Ok((code, size, body)) => Ok((pack_type_of(code)->Some_0, size, body)),
        }
    }
}

/// The entry under which an object read between `offset` and `end` is
/// cached: with its hash and with the checksum of the bytes it occupies.
pub open spec fn entry_at(data: Seq<u8>, offset: int, end: int, object: ObjectView) -> EntryView {
    EntryView {
        object,
        hash: object.hash(),
        end: end as u64,
        crc32: crc32_iso_hdlc(data.subrange(offset, end)),
    }
}

/// A step of the decoder: the cache it leaves and what it read.
pub struct Step {
    pub cache: CacheView,
    pub result: Result<EntryView, ErrorView>,
}

/// The step that fails with `e` and leaves `cache`.
pub open spec fn fail(cache: CacheView, e: ErrorView) -> Step {
    Step { cache, result: Err(e) }
}

/// The step that caches `object` as read between `offset` and `end`.
pub open spec fn store(
    data: Seq<u8>,
    cache: CacheView,
    offset: int,
    end: int,
    object: ObjectView,
) -> Step {
    Step {
        cache: cache.insert(offset as u64, entry_at(data, offset, end, object)),
        result: Ok(entry_at(data, offset, end, object)),
    }
}

/// Reads an object stored in full: its body is one zlib stream that unpacks
/// to exactly the announced number of bytes.
pub open spec fn read_base(
    data: Seq<u8>,
    cache: CacheView,
    offset: int,
    t: ObjectType,
    size: u64,
    body: int,
) -> Step {
    match zlib_stream_at(data, body) {
        Err(e) => fail(cache, e),
        Ok((contents, end)) => if contents.len() != size {
            fail(cache, ErrorView::CorruptObject)
        } else {
            store(data, cache, offset, end, ObjectView { object_type: t, contents })
        },
    }
}

/// Reads the rest of a delta object once its base is known: the body is one
/// zlib stream that holds the delta; the result has the type of the base.
pub open spec fn read_delta(
    data: Seq<u8>,
    cache: CacheView,
    offset: int,
    body: int,
    base: ObjectView,
) -> Step {
    match zlib_stream_at(data, body) {
        Err(e) => fail(cache, e),
        Ok((delta, end)) => match delta_result(base.contents, delta) {
            Err(e) => fail(cache, e),
            Ok(contents) => store(
                data,
                cache,
                offset,
                end,
                ObjectView { object_type: base.object_type, contents },
            ),
        },
    }
}

/// Where the object at `offset` is an offset delta whose base the cache
/// lacks: where the delta starts, and the offset of the base.
pub open spec fn needs_base(data: Seq<u8>, cache: CacheView, offset: int) -> Option<(int, int)> {
    match object_header_at(data, offset) {
        Ok((PackObjectType::OffsetDelta, _, body)) => match offset_encoding_at(data, body) {
            Ok((distance, after)) => if 0 < distance <= offset && !cache.by_offset.contains_key(
                (offset - distance) as u64,
            ) {
                Some((after, offset - distance))
            } else {
                None
            },
            Err(_) => None,
        },
        _ => None,
    }
}

/// Reads the rest of an offset delta once its base has been read.
pub open spec fn resume(data: Seq<u8>, offset: int, after: int, pulled: Step) -> Step {
    match pulled.result {
        Err(e) => fail(pulled.cache, e),
        Ok(base) => read_delta(data, pulled.cache, offset, after, base.object),
    }
}

/// Reads the object at `offset` and caches it. The base of an offset delta
/// is taken from the cache, or read first where the cache lacks it; the base
/// of a hash delta must be in the cache.
#[verifier::opaque]
pub open spec fn next_object_spec(data: Seq<u8>, cache: CacheView, offset: int) -> Step
    decreases offset,
{
    match object_header_at(data, offset) {
        Err(e) => fail(cache, e),
        Ok((PackObjectType::Base(t), size, body)) => read_base(data, cache, offset, t, size, body),
        Ok((PackObjectType::OffsetDelta, _, body)) => match offset_encoding_at(data, body) {
            Err(e) => fail(cache, e),
            Ok((distance, after)) => if distance == 0 || distance > offset {
                fail(cache, ErrorView::InvalidOffsetDelta)
            } else if cache.by_offset.contains_key((offset - distance) as u64) {
                read_delta(
                    data,
                    cache,
                    offset,
                    after,
                    cache.by_offset[(offset - distance) as u64].object,
                )
            } else {
                resume(data, offset, after, next_object_spec(data, cache, offset - distance))
            },
        },
        Ok((PackObjectType::HashDelta, _, body)) => match hash_at(data, body) {
            Err(e) => fail(cache, e),
            Ok((h, after)) => if cache.by_hash.contains_key(h) {
                read_delta(data, cache, offset, after, cache.by_hash[h])
            } else {
                fail(cache, ErrorView::MissingBaseObject(h))
            },
        },
    }
}

/// An offset delta whose base the cache lacks is read by reading the base
/// and then the rest of the delta.
pub proof fn lemma_read_after_base(data: Seq<u8>, cache: CacheView, offset: int)
    ensures
        needs_base(data, cache, offset) matches Some((after, base)) ==> 0 <= base < offset
            && next_object_spec(data, cache, offset) == resume(
            data,
            offset,
            after,
            next_object_spec(data, cache, base),
        ),
{
    reveal(next_object_spec);
}

/// An offset delta that waits for its base: its offset, where its delta
/// starts, and the offset of its base.
struct Pending {
    offset: u64,
    after: usize,
    base_offset: u64,
}

/// What the deltas that wait make of the step that read the base of the last
/// of them: each is read after the one that follows it.
spec fn unwind(data: Seq<u8>, pending: Seq<Pending>, upto: int, top: Step) -> Step
    decreases upto,
{
    if upto <= 0 || upto > pending.len() {
        top
    } else {
        unwind(
            data,
            pending,
            upto - 1,
            resume(data, pending[upto - 1].offset as int, pending[upto - 1].after as int, top),
        )
    }
}

/// A failure passes through the deltas that wait.
proof fn lemma_unwind_failure(
    data: Seq<u8>,
    pending: Seq<Pending>,
    upto: int,
    cache: CacheView,
    e: ErrorView,
)
    ensures
        unwind(data, pending, upto, fail(cache, e)) == fail(cache, e),
    decreases upto,
{
    if 0 < upto <= pending.len() {
        lemma_unwind_failure(data, pending, upto - 1, cache, e);
    }
}

/// Only the deltas below `upto` matter to what they make of a step.
proof fn lemma_unwind_prefix(
    data: Seq<u8>,
    one: Seq<Pending>,
    other: Seq<Pending>,
    upto: int,
    top: Step,
)
    requires
        0 <= upto <= one.len(),
        upto <= other.len(),
        forall|i: int| 0 <= i < upto ==> one[i] == other[i],
    ensures
        unwind(data, one, upto, top) == unwind(data, other, upto, top),
    decreases upto,
{
    if upto > 0 {
        lemma_unwind_prefix(
            data,
            one,
            other,
            upto - 1,
            resume(data, one[upto - 1].offset as int, one[upto - 1].after as int, top),
        );
    }
}

/// An object that was read is in the cache afterwards, under its offset, and
/// it occupies at least one byte of the input.
pub proof fn lemma_read_object_is_cached(data: Seq<u8>, cache: CacheView, offset: int)
    requires
        data.len() <= u64::MAX,
    ensures
        next_object_spec(data, cache, offset).result matches Ok(entry) ==> 0 <= offset < entry.end
            <= data.len() && next_object_spec(data, cache, offset).cache.by_offset.contains_key(
            offset as u64,
        ) && next_object_spec(data, cache, offset).cache.by_offset[offset as u64] == entry,
    decreases offset,
{
    reveal(next_object_spec);
    lemma_type_and_size_advances(data, offset);
    match object_header_at(data, offset) {
        Err(e) => {},
        Ok((PackObjectType::Base(t), size, body)) => {},
        Ok((PackObjectType::OffsetDelta, _, body)) => {
            lemma_offset_tail_advances(data, body, 0);
            match offset_encoding_at(data, body) {
                Err(e) => {},
                Ok((distance, after)) => {
                    if !(distance == 0 || distance > offset) && !cache.by_offset.contains_key(
                        (offset - distance) as u64,
                    ) {
                        lemma_read_object_is_cached(data, cache, offset - distance);
                    }
                },
            }
        },
        Ok((PackObjectType::HashDelta, _, body)) => {},
    }
}

/// Whether an exec result agrees with the step that the model takes.
pub open spec fn agrees(r: Result<hash::Hash, GitError>, step: Step) -> bool {
    match r {
        Ok(h) => step.result is Ok && step.result->Ok_0.hash == h@,
        Err(e) => step.result == Err::<EntryView, _>(e@),
    }
}

/// Caches the object that was read between `offset` and `end`.
fn store_object(
    data: &[u8],
    offset: u64,
    end: usize,
    object: Object,
    cache: &mut PackObjectCache,
) -> (h: hash::Hash)
    requires
        offset < end <= data@.len(),
    ensures
        final(cache)@ == store(data@, old(cache)@, offset as int, end as int, object@).cache,
        store(data@, old(cache)@, offset as int, end as int, object@).result->Ok_0.hash == h@,
{
    let sum = crc32(slice_subrange(data, offset as usize, end));
    cache.update(object, offset, end as u64, sum)
}

/// Reads the delta at `body` and applies it to `base`.
fn materialize_delta(data: &[u8], body: usize, base: &Object) -> (r: Result<
    (Object, usize),
    GitError,
>)
    ensures
        match r {
            Ok((object, end)) => zlib_stream_at(data@, body as int) matches Ok((delta, e)) && e
                == end && body <= end <= data@.len() && delta_result(base@.contents, delta) == Ok::<
                _,
                ErrorView,
            >(object@.contents) && object@.object_type == base@.object_type,
            Err(e) => match zlib_stream_at(data@, body as int) {
                Err(z) => z == e@,
                Ok((delta, _)) => delta_result(base@.contents, delta) == Err::<Seq<u8>, _>(e@),
            },
        },
{
    let (delta, end) = match read_zlib_stream_exact(data, body) {
        Ok(x) => x,
        Err(e) => {
            return Err(e);
        },
    };
    match apply_delta(base.contents.as_slice(), delta.as_slice()) {
        Err(e) => Err(e),
        Ok(contents) => Ok((Object { object_type: base.object_type, contents }, end)),
    }
}

/// What reading an object came to: the object was read and cached, or it is
/// an offset delta whose base must be read first.
enum Reading {
    Done(hash::Hash),
    Waits(usize, u64),
}

/// Reads the object at `offset` unless it is an offset delta whose base the
/// cache lacks; of such a delta only the header is read.
fn read_or_wait(data: &[u8], offset: u64, cache: &mut PackObjectCache) -> (r: Result<
    Reading,
    GitError,
>)
    ensures
        match r {
            Ok(Reading::Waits(after, base)) => needs_base(data@, old(cache)@, offset as int)
                == Some((after as int, base as int)) && final(cache)@ == old(cache)@ && base
                < offset < after <= data@.len(),
            Ok(Reading::Done(h)) => needs_base(data@, old(cache)@, offset as int) is None
                && final(cache)@ == next_object_spec(data@, old(cache)@, offset as int).cache
                && next_object_spec(data@, old(cache)@, offset as int).result is Ok
                && next_object_spec(data@, old(cache)@, offset as int).result->Ok_0.hash == h@,
            Err(e) => needs_base(data@, old(cache)@, offset as int) is None && final(cache)@
                == next_object_spec(data@, old(cache)@, offset as int).cache && next_object_spec(
                data@,
                old(cache)@,
                offset as int,
            ).result == Err::<EntryView, _>(e@),
        },
{
    reveal(next_object_spec);
    if offset >= data.len() as u64 {
        return Err(GitError::UnexpectedEof);
    }
    let pos = offset as usize;
    let kind = match PackObjectType::type_number2_type(data[pos] / 16 % 8) {
        None => {
            return Err(GitError::InvalidObjectType);
        },
        Some(kind) => kind,
    };
    proof {
        lemma_type_and_size_advances(data@, pos as int);
    }
    let (_, size, body) = match read_type_and_size(data, pos) {
        Ok(x) => x,
        Err(e) => {
            return Err(e);
        },
    };
    match kind {
        PackObjectType::Base(t) => {
            let (contents, end) = match read_zlib_stream_exact(data, body) {
                Ok(x) => x,
                Err(e) => {
                    return Err(e);
                },
            };
            if contents.len() as u64 != size {
                return Err(GitError::CorruptObject);
            }
            Ok(
                Reading::Done(
                    store_object(data, offset, end, Object { object_type: t, contents }, cache),
                ),
            )
        },
        PackObjectType::OffsetDelta => {
            let (distance, after) = match read_offset_encoding(data, body) {
                Ok(x) => x,
                Err(e) => {
                    return Err(e);
                },
            };
            if distance == 0 || distance > offset {
                return Err(GitError::InvalidOffsetDelta);
            }
            let base_offset = offset - distance;
            proof {
                lemma_offset_tail_advances(data@, body as int, 0);
            }
            let made = match cache.offset_object(base_offset) {
                None => {
                    return Ok(Reading::Waits(after, base_offset));
                },
                Some(base) => materialize_delta(data, after, &base.object),
            };
            match made {
                Err(e) => Err(e),
                Ok((object, end)) => Ok(Reading::Done(store_object(data, offset, end, object, cache))),
            }
        },
        PackObjectType::HashDelta => {
            let (h, after) = match read_hash(data, body) {
                Ok(x) => x,
                Err(e) => {
                    return Err(e);
                },
            };
            let made = match cache.hash_object(&h) {
                None => {
                    return Err(GitError::MissingBaseObject(h));
                },
                Some(base) => materialize_delta(data, after, base),
            };
            match made {
                Err(e) => Err(e),
                Ok((object, end)) => Ok(Reading::Done(store_object(data, offset, end, object, cache))),
            }
        },
    }
}

/// Whether the deltas that wait form a chain down to `current`: each waits
/// for the one that follows it, and the last one for the object at `current`.
spec fn chained(pending: Seq<Pending>, current: u64, total: int) -> bool {
    &&& pending.len() > 0 ==> pending[pending.len() - 1].base_offset == current
    &&& forall|i: int|
        0 <= i < pending.len() - 1 ==> (#[trigger] pending[i]).base_offset == pending[i + 1].offset
    &&& forall|i: int|
        0 <= i < pending.len() ==> (#[trigger] pending[i]).offset < pending[i].after <= total
}

/// The step that has read the object at `current`, by the cache it left.
spec fn read_step(cache: CacheView, current: u64) -> Step {
    Step { cache, result: Ok(cache.by_offset[current]) }
}

/// Follows the chain of bases that have not been read down from `offset`
/// and reads the object at its end. Returns the deltas that wait, the offset
/// of the object that was read, and its hash.
fn descend(data: &[u8], offset: u64, cache: &mut PackObjectCache) -> (r: Result<
    (Vec<Pending>, u64, hash::Hash),
    GitError,
>)
    ensures
        match r {
            Ok((pending, current, last)) => {
                &&& chained(pending@, current, data@.len() as int)
                &&& final(cache)@.by_offset.contains_key(current)
                &&& final(cache)@.by_offset[current].hash == last@
                &&& next_object_spec(data@, old(cache)@, offset as int) == unwind(
                    data@,
                    pending@,
                    pending@.len() as int,
                    read_step(final(cache)@, current),
                )
            },
            Err(e) => next_object_spec(data@, old(cache)@, offset as int) == fail(
                final(cache)@,
                e@,
            ),
        },
{
    let ghost start = cache@;
    let ghost whole = next_object_spec(data@, start, offset as int);
    let total = data.len();
    let mut pending: Vec<Pending> = Vec::new();
    let mut current: u64 = offset;
    loop
        invariant
            total == data@.len(),
            cache@ == start,
            start == old(cache)@,
            whole == next_object_spec(data@, start, offset as int),
            whole == unwind(
                data@,
                pending@,
                pending@.len() as int,
                next_object_spec(data@, start, current as int),
            ),
            chained(pending@, current, total as int),
        decreases current,
    {
        let ghost here = next_object_spec(data@, start, current as int);
        let ghost before = pending@;
        proof {
            lemma_read_after_base(data@, start, current as int);
        }
        match read_or_wait(data, current, cache) {
            Err(e) => {
                proof {
                    assert(here == fail(cache@, e@));
                    lemma_unwind_failure(data@, before, before.len() as int, cache@, e@);
                }
                return Err(e);
            },
            Ok(Reading::Waits(after, base_offset)) => {
                let ghost below = next_object_spec(data@, start, base_offset as int);
                pending.push(Pending { offset: current, after, base_offset });
                proof {
                    assert(here == resume(data@, current as int, after as int, below));
                    assert(pending@[before.len() as int].offset == current);
                    assert(pending@[before.len() as int].after == after);
                    assert forall|i: int| 0 <= i < before.len() implies pending@[i] == before[i] by {}
                    lemma_unwind_prefix(data@, pending@, before, before.len() as int, here);
                    assert(unwind(data@, pending@, pending@.len() as int, below) == unwind(
                        data@,
                        pending@,
                        before.len() as int,
                        here,
                    ));
                }
                current = base_offset;
            },
            Ok(Reading::Done(h)) => {
                proof {
                    lemma_read_object_is_cached(data@, start, current as int);
                    assert(here.cache == cache@);
                    assert(here.result == Ok::<EntryView, ErrorView>(cache@.by_offset[current]));
                    assert(here == read_step(cache@, current));
                }
                return Ok((pending, current, h));
            },
        }
    }
}

/// Reads the deltas of `chain`, the last one first: each finds its base in
/// the cache, where the object at `from` has been read, with the hash
/// `first`.
fn ascend(
    data: &[u8],
    chain: Vec<Pending>,
    from: u64,
    first: hash::Hash,
    cache: &mut PackObjectCache,
) -> (r: Result<hash::Hash, GitError>)
    requires
        chained(chain@, from, data@.len() as int),
        old(cache)@.by_offset.contains_key(from),
        old(cache)@.by_offset[from].hash == first@,
    ensures
        final(cache)@ == unwind(
            data@,
            chain@,
            chain@.len() as int,
            read_step(old(cache)@, from),
        ).cache,
        agrees(r, unwind(data@, chain@, chain@.len() as int, read_step(old(cache)@, from))),
{
    let ghost whole = unwind(data@, chain@, chain@.len() as int, read_step(old(cache)@, from));
    let total = data.len();
    let mut pending = chain;
    let mut current = from;
    let mut last = first;
    while pending.len() > 0
        invariant
            total == data@.len(),
            whole == unwind(data@, chain@, chain@.len() as int, read_step(old(cache)@, from)),
            whole == unwind(data@, pending@, pending@.len() as int, read_step(cache@, current)),
            cache@.by_offset.contains_key(current),
            cache@.by_offset[current].hash == last@,
            chained(pending@, current, total as int),
        decreases pending@.len(),
    {
        let ghost before = pending@;
        let ghost below = read_step(cache@, current);
        let waiting = pending.pop().unwrap();
        let ghost here = resume(data@, waiting.offset as int, waiting.after as int, below);
        proof {
            assert(waiting == before[before.len() - 1]);
            assert forall|i: int| 0 <= i < pending@.len() implies before[i] == pending@[i] by {}
            lemma_unwind_prefix(data@, before, pending@, pending@.len() as int, here);
            assert(whole == unwind(data@, pending@, pending@.len() as int, here));
            assert(chained(pending@, waiting.offset, total as int)) by {
                if pending@.len() > 0 {
                    assert(before[pending@.len() - 1].base_offset == before[pending@.len() as int].offset);
                }
            }
        }
        let made = match cache.offset_object(waiting.base_offset) {
            None => {
                return Err(GitError::InvalidOffsetDelta);
            },
            Some(base) => materialize_delta(data, waiting.after, &base.object),
        };
        match made {
            Err(e) => {
                proof {
                    assert(here == fail(cache@, e@));
                    lemma_unwind_failure(data@, pending@, pending@.len() as int, cache@, e@);
                }
                return Err(e);
            },
            Ok((object, end)) => {
                last = store_object(data, waiting.offset, end, object, cache);
                current = waiting.offset;
                proof {
                    assert(here == read_step(cache@, current));
                }
            },
        }
    }
    Ok(last)
}

/// A cache that holds the objects of `outside` under their hashes.
fn seeded_cache(outside: Vec<Object>) -> (cache: PackObjectCache)
    ensures
        cache@ == CacheView::empty().with_outside(object_views(outside@)),
{
    let ghost views = object_views(outside@);
    proof {
        assert(views.take(outside@.len() as int) =~= views);
    }
    let mut cache = PackObjectCache::new();
    let mut outside = outside;
    while outside.len() > 0
        invariant
            outside@.len() <= views.len(),
            object_views(outside@) == views.take(outside@.len() as int),
            CacheView::empty().with_outside(views) == cache@.with_outside(object_views(outside@)),
        decreases outside@.len(),
    {
        let ghost before = outside@;
        let object = outside.pop().unwrap();
        proof {
            assert(outside@ =~= before.drop_last());
            assert(object_views(before).drop_last() =~= object_views(outside@));
            assert forall|i: int| 0 <= i < outside@.len() implies object_views(outside@)[i]
                == views.take(outside@.len() as int)[i] by {
                assert(object_views(before)[i] == views.take(before.len() as int)[i]);
            }
            assert(object_views(outside@) =~= views.take(outside@.len() as int));
            assert(object_views(before).last() == object@);
        }
        cache.update_outside(object);
    }
    cache
}

/// Reads `count` objects one behind the other, the first at `start`, and
/// returns the position behind the last.
fn read_run(data: &[u8], start: usize, count: u32, cache: &mut PackObjectCache) -> (r: Result<
    usize,
    GitError,
>)
    requires
        start <= data@.len(),
    ensures
        final(cache)@ == read_objects(data@, old(cache)@, start as int, count as nat).cache,
        match r {
            Ok(end) => read_objects(data@, old(cache)@, start as int, count as nat).result == Ok::<
                _,
                ErrorView,
            >(end as int) && end <= data@.len(),
            Err(e) => read_objects(data@, old(cache)@, start as int, count as nat).result == Err::<
                int,
                _,
            >(e@),
        },
{
    let mut pos: usize = start;
    let mut left: u32 = count;
    let total = data.len();
    while left > 0
        invariant
            total == data@.len(),
            pos <= data@.len(),
            read_objects(data@, old(cache)@, start as int, count as nat) == read_objects(
                data@,
                cache@,
                pos as int,
                left as nat,
            ),
        decreases left,
    {
        proof {
            lemma_read_object_is_cached(data@, cache@, pos as int);
        }
        match Pack::next_object(data, pos as u64, cache) {
            Err(e) => {
                return Err(e);
            },
            Ok(_) => {},
        }
        pos = match cache.offset_object(pos as u64) {
            None => {
                return Err(GitError::CorruptObject);
            },
            Some(entry) => entry.end as usize,
        };
        left -= 1;
    }
    Ok(pos)
}

/// A decoded pack: its header fields, its trailer and the objects it holds.
pub struct Pack {
    head: [u8; 4],
    version: u32,
    number_of_objects: u32,
    signature: hash::Hash,
    result: PackObjectCache,
}

/// The model of a decoded pack.
pub struct PackView {
    pub head: Seq<u8>,
    pub version: u32,
    pub number_of_objects: u32,
    pub signature: Seq<u8>,
    pub cache: CacheView,
}

impl View for Pack {
    type V = PackView;

    closed spec fn view(&self) -> PackView {
        PackView {
            head: self.head@,
            version: self.version,
            number_of_objects: self.number_of_objects,
            signature: self.signature@,
            cache: self.result@,
        }
    }
}

/// What reading the header of a pack yields: the number of objects that the
/// pack announces.
pub open spec fn pack_header(data: Seq<u8>) -> Result<u32, ErrorView> {
    if data.len() < 4 {
        Err(ErrorView::UnexpectedEof)
    } else if data.subrange(0, 4) != pack_magic() {
        Err(ErrorView::InvalidPackHeader)
    } else {
        match u32_at(data, 4) {
            Err(e) => Err(e),
            Ok((version, _)) => if version != 2 {
                Err(ErrorView::UnsupportedVersion)
            } else {
                match u32_at(data, 8) {
                    Err(e) => Err(e),
                    Ok((n, _)) => Ok(n),
                }
            },
        }
    }
}

/// The outcome of reading several objects one behind the other: the cache
/// that is left and the position behind the last object.
pub struct Run {
    pub cache: CacheView,
    pub result: Result<int, ErrorView>,
}

/// Reads `count` objects one behind the other, the first at `pos`.
pub open spec fn read_objects(data: Seq<u8>, cache: CacheView, pos: int, count: nat) -> Run
    decreases count,
{
    if count == 0 {
        Run { cache, result: Ok(pos) }
    } else {
        let step = next_object_spec(data, cache, pos);
        match step.result {
            Err(e) => Run { cache: step.cache, result: Err(e) },
            Ok(entry) => read_objects(data, step.cache, entry.end as int, (count - 1) as nat),
        }
    }
}

/// What decoding a pack yields, where `outside` are the objects that are
/// known from elsewhere and may serve as bases of hash deltas: the header is
/// checked, the announced number of objects is read from offset 12 on, and the
/// 20 bytes behind the last object are the trailer.
pub open spec fn decode_spec(data: Seq<u8>, outside: Seq<ObjectView>) -> Result<
    PackView,
    ErrorView,
> {
    match pack_header(data) {
        Err(e) => Err(e),
        Ok(n) => {
            let run = read_objects(data, CacheView::empty().with_outside(outside), 12, n as nat);
            match run.result {
                Err(e) => Err(e),
                Ok(end) => match hash_at(data, end) {
                    Err(e) => Err(e),
                    Ok((signature, _)) => Ok(
                        PackView {
                            head: pack_magic(),
                            version: 2,
                            number_of_objects: n,
                            signature,
                            cache: run.cache,
                        },
                    ),
                },
            }
        },
    }
}

/// Where the objects of a pack end, which is where its trailer starts.
pub open spec fn objects_end(data: Seq<u8>, outside: Seq<ObjectView>) -> Result<int, ErrorView> {
    match pack_header(data) {
        Err(e) => Err(e),
        Ok(n) => read_objects(data, CacheView::empty().with_outside(outside), 12, n as nat).result,
    }
}

/// Whether the object at `offset` can be read without reading another first:
/// it is no offset delta, or the base that it names is in the cache.
pub open spec fn base_in_cache(data: Seq<u8>, cache: CacheView, offset: int) -> bool {
    needs_base(data, cache, offset) is None
}

/// Whether `count` objects, the first at `pos`, can be read in turn: every
/// offset delta among them names a base that was read before it.
pub open spec fn reads_in_turn(data: Seq<u8>, cache: CacheView, pos: int, count: nat) -> bool
    decreases count,
{
    count == 0 || {
        let step = next_object_spec(data, cache, pos);
        &&& base_in_cache(data, cache, pos)
        &&& step.result matches Ok(entry) ==> reads_in_turn(
            data,
            step.cache,
            entry.end as int,
            (count - 1) as nat,
        )
    }
}

/// Whether every offset delta of a pack names a base that stands before it in
/// the pack.
pub open spec fn self_contained(data: Seq<u8>, outside: Seq<ObjectView>) -> bool {
    match pack_header(data) {
        Err(_) => true,
        Ok(n) => reads_in_turn(data, CacheView::empty().with_outside(outside), 12, n as nat),
    }
}

/// Reading an object whose base need not be read first adds the object to the
/// cache and nothing else.
pub proof fn lemma_read_in_turn(data: Seq<u8>, cache: CacheView, offset: int)
    requires
        base_in_cache(data, cache, offset),
    ensures
        next_object_spec(data, cache, offset).result matches Ok(entry) ==> next_object_spec(
            data,
            cache,
            offset,
        ).cache == cache.insert(offset as u64, entry),
        next_object_spec(data, cache, offset).result is Err ==> next_object_spec(
            data,
            cache,
            offset,
        ).cache == cache,
{
    reveal(next_object_spec);
}

/// Outside objects are entered under their hashes only.
pub proof fn lemma_outside_has_no_offsets(cache: CacheView, outside: Seq<ObjectView>)
    ensures
        cache.with_outside(outside).by_offset == cache.by_offset,
    decreases outside.len(),
{
    if outside.len() > 0 {
        lemma_outside_has_no_offsets(cache.insert_outside(outside.last()), outside.drop_last());
    }
}

/// Objects that are read in turn add one offset each to the cache.
pub proof fn lemma_run_in_turn_counts(data: Seq<u8>, cache: CacheView, pos: int, count: nat)
    requires
        data.len() <= u64::MAX,
        0 <= pos,
        cache.by_offset.dom().finite(),
        forall|o: u64| #[trigger] cache.by_offset.contains_key(o) ==> o < pos,
        reads_in_turn(data, cache, pos, count),
        read_objects(data, cache, pos, count).result is Ok,
    ensures
        read_objects(data, cache, pos, count).cache.by_offset.dom().finite(),
        read_objects(data, cache, pos, count).cache.by_offset.dom().len()
            == cache.by_offset.dom().len() + count,
    decreases count,
{
    if count > 0 {
        let step = next_object_spec(data, cache, pos);
        lemma_read_in_turn(data, cache, pos);
        lemma_read_object_is_cached(data, cache, pos);
        let entry = step.result->Ok_0;
        assert(step.cache.by_offset.dom() =~= cache.by_offset.dom().insert(pos as u64));
        assert(!cache.by_offset.dom().contains(pos as u64));
        lemma_run_in_turn_counts(data, step.cache, entry.end as int, (count - 1) as nat);
    }
}

/// The trailer of a decoded pack is the last 20 bytes of the input, where the
/// input ends with the trailer.
pub proof fn lemma_trailer_is_tail(data: Seq<u8>, outside: Seq<ObjectView>)
    requires
        decode_spec(data, outside) is Ok,
        objects_end(data, outside) == Ok::<int, ErrorView>(data.len() - 20),
    ensures
        decode_spec(data, outside)->Ok_0.signature == data.subrange(
            data.len() - 20,
            data.len() as int,
        ),
{
}

/// A decoded pack whose offset deltas all name bases that stand before them
/// holds exactly as many objects as its header announces.
pub proof fn lemma_decoded_count(data: Seq<u8>, outside: Seq<ObjectView>)
    requires
        data.len() <= u64::MAX,
        decode_spec(data, outside) is Ok,
        self_contained(data, outside),
    ensures
        decode_spec(data, outside)->Ok_0.cache.by_offset.dom().finite(),
        decode_spec(data, outside)->Ok_0.cache.by_offset.dom().len() == decode_spec(
            data,
            outside,
        )->Ok_0.number_of_objects,
{
    let n = pack_header(data)->Ok_0;
    let seeded = CacheView::empty().with_outside(outside);
    lemma_outside_has_no_offsets(CacheView::empty(), outside);
    assert(seeded.by_offset.dom() =~= Set::<u64>::empty());
    lemma_run_in_turn_counts(data, seeded, 12, n as nat);
}

/// Entering an object under its hash keeps a cache well formed.
pub proof fn lemma_insert_keeps_wf(cache: CacheView, offset: u64, entry: EntryView)
    requires
        cache.wf(),
        entry.hash == entry.object.hash(),
    ensures
        cache.insert(offset, entry).wf(),
        cache.insert_outside(entry.object).wf(),
{
    let with = cache.insert(offset, entry);
    assert(with.by_offset.dom() =~= cache.by_offset.dom().insert(offset));
    assert forall|o: u64| #[trigger] with.by_offset.contains_key(o) implies with.by_offset[o].hash
        == with.by_offset[o].object.hash() && with.by_hash.contains_key(with.by_offset[o].hash) by {
        if o != offset {
            assert(cache.by_offset.contains_key(o));
        }
    }
    assert forall|h: Seq<u8>| #[trigger] with.by_hash.contains_key(h) implies with.by_hash[h].hash()
        == h by {
        if h != entry.hash {
            assert(cache.by_hash.contains_key(h));
        }
    }
    let outside = cache.insert_outside(entry.object);
    assert forall|o: u64| #[trigger] outside.by_offset.contains_key(o) implies outside.by_offset[o].hash
        == outside.by_offset[o].object.hash() && outside.by_hash.contains_key(
        outside.by_offset[o].hash,
    ) by {
        assert(cache.by_offset.contains_key(o));
    }
    assert forall|h: Seq<u8>| #[trigger] outside.by_hash.contains_key(h) implies outside.by_hash[h].hash()
        == h by {
        if h != entry.object.hash() {
            assert(cache.by_hash.contains_key(h));
        }
    }
}

/// Reading an object keeps a cache well formed: the hash that is recorded
/// for an object is the hash of its type and contents.
pub proof fn lemma_reading_keeps_wf(data: Seq<u8>, cache: CacheView, offset: int)
    requires
        cache.wf(),
    ensures
        next_object_spec(data, cache, offset).cache.wf(),
        next_object_spec(data, cache, offset).result matches Ok(entry) ==> entry.hash
            == entry.object.hash(),
    decreases offset,
{
    reveal(next_object_spec);
    match object_header_at(data, offset) {
        Err(e) => {},
        Ok((PackObjectType::Base(t), size, body)) => {
            match zlib_stream_at(data, body) {
                Ok((contents, end)) => {
                    lemma_insert_keeps_wf(
                        cache,
                        offset as u64,
                        entry_at(data, offset, end, ObjectView { object_type: t, contents }),
                    );
                },
                Err(_) => {},
            }
        },
        Ok((PackObjectType::OffsetDelta, _, body)) => {
            match offset_encoding_at(data, body) {
                Err(e) => {},
                Ok((distance, after)) => {
                    if !(distance == 0 || distance > offset) {
                        let base_offset = (offset - distance) as u64;
                        if cache.by_offset.contains_key(base_offset) {
                            lemma_delta_keeps_wf(
                                data,
                                cache,
                                offset,
                                after,
                                cache.by_offset[base_offset].object,
                            );
                        } else {
                            lemma_reading_keeps_wf(data, cache, offset - distance);
                            let pulled = next_object_spec(data, cache, offset - distance);
                            match pulled.result {
                                Ok(base) => {
                                    lemma_delta_keeps_wf(
                                        data,
                                        pulled.cache,
                                        offset,
                                        after,
                                        base.object,
                                    );
                                },
                                Err(_) => {},
                            }
                        }
                    }
                },
            }
        },
        Ok((PackObjectType::HashDelta, _, body)) => {
            match hash_at(data, body) {
                Ok((h, after)) => {
                    if cache.by_hash.contains_key(h) {
                        lemma_delta_keeps_wf(data, cache, offset, after, cache.by_hash[h]);
                    }
                },
                Err(_) => {},
            }
        },
    }
}

/// Reading a delta keeps a cache well formed.
proof fn lemma_delta_keeps_wf(
    data: Seq<u8>,
    cache: CacheView,
    offset: int,
    body: int,
    base: ObjectView,
)
    requires
        cache.wf(),
    ensures
        read_delta(data, cache, offset, body, base).cache.wf(),
        read_delta(data, cache, offset, body, base).result matches Ok(entry) ==> entry.hash
            == entry.object.hash(),
{
    match zlib_stream_at(data, body) {
        Ok((delta, end)) => {
            match delta_result(base.contents, delta) {
                Ok(contents) => {
                    lemma_insert_keeps_wf(
                        cache,
                        offset as u64,
                        entry_at(
                            data,
                            offset,
                            end,
                            ObjectView { object_type: base.object_type, contents },
                        ),
                    );
                },
                Err(_) => {},
            }
        },
        Err(_) => {},
    }
}

/// Every object of a decoded pack has the hash of its type and contents
/// recorded, where that holds of the objects that were known before.
pub proof fn lemma_decoded_hashes(data: Seq<u8>, cache: CacheView, pos: int, count: nat)
    requires
        cache.wf(),
    ensures
        read_objects(data, cache, pos, count).cache.wf(),
    decreases count,
{
    if count > 0 {
        lemma_reading_keeps_wf(data, cache, pos);
        let step = next_object_spec(data, cache, pos);
        match step.result {
            Ok(entry) => {
                lemma_decoded_hashes(data, step.cache, entry.end as int, (count - 1) as nat);
            },
            Err(_) => {},
        }
    }
}

/// The two indices of a cache agree: the object under an offset has the hash
/// `h` exactly if the object under `h` is that object, unless two different
/// objects of the cache have one hash.
pub proof fn lemma_cache_indices_agree(cache: CacheView, o: u64, h: Seq<u8>)
    requires
        cache.wf(),
        cache.collision_free(),
        cache.by_offset.contains_key(o),
    ensures
        cache.by_offset[o].hash == h <==> cache.by_hash.contains_key(h) && cache.by_hash[h]
            == cache.by_offset[o].object,
{
}

/// The outcome of reading the objects that an index lists: the cache that is
/// left, and the error that stopped the reading, if one did.
pub struct Listed {
    pub cache: CacheView,
    pub failure: Option<ErrorView>,
}

/// Reads the objects at the offsets of `items` from entry `k` on, in the
/// order of the entries.
pub open spec fn read_listed(data: Seq<u8>, cache: CacheView, items: Seq<ItemView>, k: int) -> Listed
    decreases items.len() - k,
{
    if k < 0 || k >= items.len() {
        Listed { cache, failure: None }
    } else {
        let step = next_object_spec(data, cache, items[k].offset as int);
        match step.result {
            Err(e) => Listed { cache: step.cache, failure: Some(e) },
            Ok(_) => read_listed(data, step.cache, items, k + 1),
        }
    }
}

/// What decoding a pack by its index yields: the header of the pack is
/// checked, the objects are read at the offsets that the index lists, in the
/// order of the index, and the number of objects and the trailer are taken
/// from the index.
pub open spec fn decode_by_idx_spec(idx: IdxView, data: Seq<u8>, outside: Seq<ObjectView>) -> Result<
    PackView,
    ErrorView,
> {
    match pack_header(data) {
        Err(e) => Err(e),
        Ok(_) => if idx.number_of_objects > u32::MAX {
            Err(ErrorView::PackTooLarge)
        } else {
            let listed = read_listed(
                data,
                CacheView::empty().with_outside(outside),
                idx.idx_items,
                0,
            );
            match listed.failure {
                Some(e) => Err(e),
                None => Ok(
                    PackView {
                        head: pack_magic(),
                        version: 2,
                        number_of_objects: idx.number_of_objects as u32,
                        signature: idx.pack_signature,
                        cache: listed.cache,
                    },
                ),
            }
        },
    }
}

/// Reads the objects that `items` lists.
fn read_by_items(data: &[u8], items: &Vec<IdxItem>, cache: &mut PackObjectCache) -> (r: Result<
    (),
    GitError,
>)
    ensures
        final(cache)@ == read_listed(data@, old(cache)@, item_views(items@), 0).cache,
        match r {
            Ok(()) => read_listed(data@, old(cache)@, item_views(items@), 0).failure is None,
            Err(e) => read_listed(data@, old(cache)@, item_views(items@), 0).failure == Some(e@),
        },
{
    let mut k: usize = 0;
    while k < items.len()
        invariant
            k <= items@.len(),
            read_listed(data@, old(cache)@, item_views(items@), 0) == read_listed(
                data@,
                cache@,
                item_views(items@),
                k as int,
            ),
        decreases items@.len() - k,
    {
        match Pack::next_object(data, items[k].offset, cache) {
            Err(e) => {
                return Err(e);
            },
            Ok(_) => {},
        }
        k += 1;
    }
    Ok(())
}

impl Pack {
    /// Checks the header of a pack and returns the number of objects that it
    /// announces. The objects start at offset 12.
    pub fn check_header(data: &[u8]) -> (r: Result<u32, GitError>)
        ensures
            match r {
                Ok(n) => pack_header(data@) == Ok::<_, ErrorView>(n) && data@.len() >= 12,
                Err(e) => pack_header(data@) == Err::<u32, _>(e@),
            },
    {
        if data.len() < 4 {
            return Err(GitError::UnexpectedEof);
        }
        if !(data[0] == 0x50 && data[1] == 0x41 && data[2] == 0x43 && data[3] == 0x4b) {
            proof {
                let m = data@.subrange(0, 4);
                if m == pack_magic() {
                    assert(m[0] == 0x50 && m[1] == 0x41 && m[2] == 0x43 && m[3] == 0x4b);
                }
            }
            return Err(GitError::InvalidPackHeader);
        }
        proof {
            assert(data@.subrange(0, 4) =~= pack_magic());
        }
        let (version, _) = match read_u32(data, 4) {
            Ok(x) => x,
            Err(e) => {
                return Err(e);
            },
        };
        if version != 2 {
            return Err(GitError::UnsupportedVersion);
        }
        match read_u32(data, 8) {
            Ok((n, _)) => Ok(n),
            Err(e) => Err(e),
        }
    }

    /// Reads the object at `offset`, caches it and returns its hash. Where
    /// the object is an offset delta whose base the cache lacks, the base is
    /// read and cached first; where it is a hash delta, its base must be in
    /// the cache already. A chain of bases is followed on a list, not on the
    /// call stack, so that a long chain cannot exhaust the stack.
    pub fn next_object(data: &[u8], offset: u64, cache: &mut PackObjectCache) -> (r: Result<
        hash::Hash,
        GitError,
    >)
        ensures
            final(cache)@ == next_object_spec(data@, old(cache)@, offset as int).cache,
            agrees(r, next_object_spec(data@, old(cache)@, offset as int)),
    {
        match descend(data, offset, cache) {
            Err(e) => Err(e),
            Ok((pending, current, last)) => ascend(data, pending, current, last, cache),
        }
    }

    /// Decodes a pack. `outside` holds the objects that are known from
    /// elsewhere; a hash delta may name one of them as its base.
    pub fn decode(data: &[u8], outside: Vec<Object>) -> (r: Result<Pack, GitError>)
        ensures
            match r {
                Ok(pack) => {
                    &&& decode_spec(data@, object_views(outside@)) == Ok::<_, ErrorView>(pack@)
                    &&& pack@.cache.wf()
                    &&& objects_end(data@, object_views(outside@)) == Ok::<int, ErrorView>(
                        data@.len() - 20,
                    ) ==> pack@.signature == data@.subrange(data@.len() - 20, data@.len() as int)
                    &&& self_contained(data@, object_views(outside@))
                        ==> pack@.cache.by_offset.dom().len() == pack@.number_of_objects
                },
                Err(e) => decode_spec(data@, object_views(outside@)) == Err::<PackView, _>(e@),
            },
    {
        let total = data.len();
        let n = match Pack::check_header(data) {
            Ok(n) => n,
            Err(e) => {
                return Err(e);
            },
        };
        let mut cache = seeded_cache(outside);
        let end = match read_run(data, 12, n, &mut cache) {
            Ok(end) => end,
            Err(e) => {
                return Err(e);
            },
        };
        let signature = match read_hash(data, end) {
            Ok((h, _)) => h,
            Err(e) => {
                return Err(e);
            },
        };
        let pack = Pack {
            head: [0x50, 0x41, 0x43, 0x4b],
            version: 2,
            number_of_objects: n,
            signature,
            result: cache,
        };
        proof {
            assert(pack@.head =~= pack_magic());
            if objects_end(data@, object_views(outside@)) == Ok::<int, ErrorView>(
                data@.len() - 20,
            ) {
                lemma_trailer_is_tail(data@, object_views(outside@));
            }
            if self_contained(data@, object_views(outside@)) {
                lemma_decoded_count(data@, object_views(outside@));
            }
        }
        pack.result.validity();
        Ok(pack)
    }

    /// Decodes the objects of a pack that an index lists, in the order of the
    /// index. The number of objects and the trailer of the result are those
    /// of the index.
    pub fn decode_by_idx(idx: &Idx, data: &[u8], outside: Vec<Object>) -> (r: Result<
        Pack,
        GitError,
    >)
        ensures
            match r {
                Ok(pack) => decode_by_idx_spec(idx@, data@, object_views(outside@)) == Ok::<
                    _,
                    ErrorView,
                >(pack@) && pack@.cache.wf(),
                Err(e) => decode_by_idx_spec(idx@, data@, object_views(outside@)) == Err::<
                    PackView,
                    _,
                >(e@),
            },
    {
        match Pack::check_header(data) {
            Ok(_) => {},
            Err(e) => {
                return Err(e);
            },
        }
        if idx.number_of_objects > u32::MAX as usize {
            return Err(GitError::PackTooLarge);
        }
        let mut cache = seeded_cache(outside);
        match read_by_items(data, &idx.idx_items, &mut cache) {
            Ok(()) => {},
            Err(e) => {
                return Err(e);
            },
        }
        let pack = Pack {
            head: [0x50, 0x41, 0x43, 0x4b],
            version: 2,
            number_of_objects: idx.number_of_objects as u32,
            signature: idx.pack_signature,
            result: cache,
        };
        proof {
            assert(pack@.head =~= pack_magic());
        }
        pack.result.validity();
        Ok(pack)
    }

    /// Whether the last 20 bytes of `data` are the digest of the bytes
    /// before them, as the trailer of an intact pack is.
    pub fn check_trailer(data: &[u8]) -> (intact: bool)
        ensures
            intact == (data@.len() >= 20 && hash::sha1_digest(
                data@.subrange(0, data@.len() - 20),
            ) == data@.subrange(data@.len() - 20, data@.len() as int)),
    {
        if data.len() < 20 {
            return false;
        }
        let at = data.len() - 20;
        let sum = hash::Hash::new(slice_subrange(data, 0, at));
        match read_hash(data, at) {
            Ok((trailer, _)) => sum.same(&trailer),
            Err(_) => false,
        }
    }

    /// The four bytes that opened the pack.
    pub fn get_head(&self) -> (head: [u8; 4])
        ensures
            head@ == self@.head,
    {
        self.head
    }

    /// The version that the pack announced.
    pub fn get_version(&self) -> (version: u32)
        ensures
            version == self@.version,
    {
        self.version
    }

    /// The number of objects that the pack announced.
    pub fn get_object_number(&self) -> (n: usize)
        ensures
            n == self@.number_of_objects,
    {
        self.number_of_objects as usize
    }

    /// The objects of the pack.
    pub fn get_cache(&self) -> (cache: &PackObjectCache)
        ensures
            cache@ == self@.cache,
    {
        &self.result
    }

    /// The trailer of the pack.
    pub fn get_hash(&self) -> (h: hash::Hash)
        ensures
            h@ == self@.signature,
    {
        self.signature
    }
}

} // verus!
