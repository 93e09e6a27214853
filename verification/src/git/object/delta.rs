//! The delta applier: it materializes an object from a base object and a
//! stream of copy and insert commands.

use vstd::prelude::*;
use vstd::slice::slice_subrange;
use crate::errors::{ErrorView, GitError};
use crate::utils::{read_size_encoding, size_encoding_at};

verus! {

/// A copy command of size zero copies this many bytes.
pub const COPY_ZERO_SIZE: u64 = 0x10000;

/// The weight of bit `k` of a byte.
pub open spec fn bit_weight(k: int) -> int {
    if k <= 0 {
        1
    } else if k == 1 {
        2
    } else if k == 2 {
        4
    } else if k == 3 {
        8
    } else if k == 4 {
        16
    } else if k == 5 {
        32
    } else if k == 6 {
        64
    } else {
        128
    }
}

/// Bit `k` of a command byte, as 0 or 1.
pub open spec fn mask_bit(cmd: u8, k: int) -> int {
    cmd as int / bit_weight(k) % 2
}

/// How many of the bits below `k` are set in a command byte, which is how many
/// argument bytes precede the one that bit `k` selects.
pub open spec fn bits_below(cmd: u8, k: int) -> int
    decreases k,
{
    if k <= 0 {
        0
    } else {
        bits_below(cmd, k - 1) + mask_bit(cmd, k - 1)
    }
}

/// The argument byte that bit `k` of the copy command at `pos` selects; an
/// argument whose bit is clear counts as zero.
pub open spec fn copy_arg(delta: Seq<u8>, pos: int, k: int) -> int {
    if mask_bit(delta[pos], k) == 1 {
        delta[pos + 1 + bits_below(delta[pos], k)] as int
    } else {
        0
    }
}

/// The offset into the base that the copy command at `pos` names: its first
/// four arguments, least significant first.
pub open spec fn copy_offset(delta: Seq<u8>, pos: int) -> int {
    copy_arg(delta, pos, 0) + copy_arg(delta, pos, 1) * 0x100 + copy_arg(delta, pos, 2) * 0x1_0000
        + copy_arg(delta, pos, 3) * 0x100_0000
}

/// The number of bytes that the copy command at `pos` copies: its last three
/// arguments, least significant first, where zero stands for 0x10000.
pub open spec fn copy_size(delta: Seq<u8>, pos: int) -> int {
    let raw = copy_arg(delta, pos, 4) + copy_arg(delta, pos, 5) * 0x100 + copy_arg(delta, pos, 6)
        * 0x1_0000;
    if raw == 0 {
        0x10000
    } else {
        raw
    }
}

/// The position behind the copy command at `pos` and its arguments.
pub open spec fn copy_end(delta: Seq<u8>, pos: int) -> int {
    pos + 1 + bits_below(delta[pos], 7)
}

/// What running the commands from `pos` on appends to `out`. A command may
/// not carry the output past `limit`, the size that the stream announced.
pub open spec fn run_commands(
    base: Seq<u8>,
    delta: Seq<u8>,
    pos: int,
    limit: int,
    out: Seq<u8>,
) -> Result<Seq<u8>, ErrorView>
    decreases delta.len() - pos,
    via run_commands_ends
{
    if pos < 0 || pos >= delta.len() {
        Ok(out)
    } else {
        let cmd = delta[pos];
        if cmd == 0 {
            Err(ErrorView::InvalidDeltaCommand)
        } else if cmd >= 128 {
            if copy_end(delta, pos) > delta.len() {
                Err(ErrorView::UnexpectedEof)
            } else if copy_offset(delta, pos) + copy_size(delta, pos) > base.len() {
                Err(ErrorView::InvalidDeltaCommand)
            } else if out.len() + copy_size(delta, pos) > limit {
                Err(ErrorView::CorruptObject)
            } else {
                run_commands(
                    base,
                    delta,
                    copy_end(delta, pos),
                    limit,
                    out + base.subrange(
                        copy_offset(delta, pos),
                        copy_offset(delta, pos) + copy_size(delta, pos),
                    ),
                )
            }
        } else if pos + 1 + cmd > delta.len() {
            Err(ErrorView::UnexpectedEof)
        } else if out.len() + cmd > limit {
            Err(ErrorView::CorruptObject)
        } else {
            run_commands(
                base,
                delta,
                pos + 1 + cmd,
                limit,
                out + delta.subrange(pos + 1, pos + 1 + cmd),
            )
        }
    }
}

/// Every command is at least one byte long, so the commands come to an end.
#[via_fn]
proof fn run_commands_ends(base: Seq<u8>, delta: Seq<u8>, pos: int, limit: int, out: Seq<u8>) {
    if 0 <= pos < delta.len() {
        lemma_bits_below_bounds(delta[pos], 7);
    }
}

/// The object that a delta stream makes of a base: the stream opens with the
/// size of the base it is meant for and the size of its result, and its
/// commands follow to the end of the stream.
pub open spec fn delta_result(base: Seq<u8>, delta: Seq<u8>) -> Result<Seq<u8>, ErrorView> {
    match size_encoding_at(delta, 0) {
        Err(e) => Err(e),
        Ok((source_size, after_source)) => if source_size != base.len() {
            Err(ErrorView::CorruptObject)
        } else {
            match size_encoding_at(delta, after_source) {
                Err(e) => Err(e),
                Ok((target_size, after_target)) => match run_commands(
                    base,
                    delta,
                    after_target,
                    target_size as int,
                    Seq::empty(),
                ) {
                    Err(e) => Err(e),
                    Ok(out) => if out.len() != target_size {
                        Err(ErrorView::CorruptObject)
                    } else {
                        Ok(out)
                    },
                },
            }
        },
    }
}

/// The size that a delta stream announces for its result, where it gets that
/// far.
pub open spec fn delta_target_size(delta: Seq<u8>) -> Option<u64> {
    match size_encoding_at(delta, 0) {
        Err(_) => None,
        Ok((_, after_source)) => match size_encoding_at(delta, after_source) {
            Err(_) => None,
            Ok((target_size, _)) => Some(target_size),
        },
    }
}

/// A command byte has between zero and `k` bits set below bit `k`.
pub proof fn lemma_bits_below_bounds(cmd: u8, k: int)
    requires
        0 <= k <= 8,
    ensures
        0 <= bits_below(cmd, k) <= k,
    decreases k,
{
    if k > 0 {
        lemma_bits_below_bounds(cmd, k - 1);
    }
}

/// Counting the set bits up to 7 gives at least the count up to `k`.
pub proof fn lemma_bits_below_tail(cmd: u8, k: int)
    requires
        0 <= k <= 7,
    ensures
        bits_below(cmd, k) <= bits_below(cmd, 7),
    decreases 7 - k,
{
    if k < 7 {
        lemma_bits_below_tail(cmd, k + 1);
    }
}

/// Whether bit `k` of a command byte is set.
fn bit_is_set(cmd: u8, k: usize) -> (set: bool)
    requires
        k < 7,
    ensures
        set == (mask_bit(cmd, k as int) == 1),
        mask_bit(cmd, k as int) == 0 || mask_bit(cmd, k as int) == 1,
{
    if k == 0 {
        cmd % 2 == 1
    } else if k == 1 {
        cmd / 2 % 2 == 1
    } else if k == 2 {
        cmd / 4 % 2 == 1
    } else if k == 3 {
        cmd / 8 % 2 == 1
    } else if k == 4 {
        cmd / 16 % 2 == 1
    } else if k == 5 {
        cmd / 32 % 2 == 1
    } else {
        cmd / 64 % 2 == 1
    }
}

/// The arguments of the copy command at `pos`: offset, size and the position
/// behind the command.
fn read_copy_args(delta: &[u8], pos: usize) -> (r: Option<(u64, u64, usize)>)
    requires
        pos < delta@.len(),
    ensures
        r is Some <==> copy_end(delta@, pos as int) <= delta@.len(),
        r matches Some((offset, size, end)) ==> offset == copy_offset(delta@, pos as int) && size
            == copy_size(delta@, pos as int) && end == copy_end(delta@, pos as int) && end > pos
            && 1 <= size < 0x100_0000,
{
    let cmd = delta[pos];
    let mut args: [u64; 7] = [0u64; 7];
    let mut p: usize = pos + 1;
    let mut k: usize = 0;
    while k < 7
        invariant
            k <= 7,
            cmd == delta@[pos as int],
            pos < delta@.len(),
            p == pos + 1 + bits_below(cmd, k as int),
            p <= delta@.len(),
            forall|j: int| 0 <= j < k ==> args@[j] == copy_arg(delta@, pos as int, j),
            forall|j: int| k <= j < 7 ==> args@[j] == 0,
        decreases 7 - k,
    {
        proof {
            lemma_bits_below_bounds(cmd, k as int);
        }
        if bit_is_set(cmd, k) {
            if p >= delta.len() {
                proof {
                    lemma_bits_below_tail(cmd, k as int + 1);
                }
                return None;
            }
            args[k] = delta[p] as u64;
            p += 1;
        }
        k += 1;
    }
    let offset = args[0] + args[1] * 0x100 + args[2] * 0x1_0000 + args[3] * 0x100_0000;
    let raw = args[4] + args[5] * 0x100 + args[6] * 0x1_0000;
    let size = if raw == 0 {
        COPY_ZERO_SIZE
    } else {
        raw
    };
    proof {
        lemma_bits_below_bounds(cmd, 7);
    }
    Some((offset, size, p))
}

/// Runs the commands of a delta stream from `start` to its end.
fn run(base: &[u8], delta: &[u8], start: usize, target_size: u64) -> (r: Result<Vec<u8>, GitError>)
    ensures
        match r {
            Ok(out) => run_commands(
                base@,
                delta@,
                start as int,
                target_size as int,
                Seq::empty(),
            ) == Ok::<_, ErrorView>(out@) && out@.len() <= target_size,
            Err(e) => run_commands(base@, delta@, start as int, target_size as int, Seq::empty())
                == Err::<Seq<u8>, _>(e@),
        },
{
    let mut out: Vec<u8> = Vec::new();
    let mut pos: usize = start;
    while pos < delta.len()
        invariant
            out@.len() <= target_size,
            run_commands(base@, delta@, start as int, target_size as int, Seq::empty())
                == run_commands(base@, delta@, pos as int, target_size as int, out@),
        decreases delta@.len() - pos,
    {
        let cmd = delta[pos];
        let ghost old_out = out@;
        if cmd == 0 {
            return Err(GitError::InvalidDeltaCommand);
        }
        if cmd >= 128 {
            match read_copy_args(delta, pos) {
                None => {
                    return Err(GitError::UnexpectedEof);
                },
                Some((offset, size, end)) => {
                    let base_len = base.len() as u64;
                    if size > base_len || offset > base_len - size {
                        return Err(GitError::InvalidDeltaCommand);
                    }
                    if size > target_size - out.len() as u64 {
                        return Err(GitError::CorruptObject);
                    }
                    let from = offset as usize;
                    let chunk = slice_subrange(base, from, from + size as usize);
                    out.extend_from_slice(chunk);
                    assert(out@ == old_out + base@.subrange(
                        copy_offset(delta@, pos as int),
                        copy_offset(delta@, pos as int) + copy_size(delta@, pos as int),
                    ));
                    pos = end;
                },
            }
        } else {
            let count = cmd as usize;
            if delta.len() - pos - 1 < count {
                return Err(GitError::UnexpectedEof);
            }
            if count as u64 > target_size - out.len() as u64 {
                return Err(GitError::CorruptObject);
            }
            let chunk = slice_subrange(delta, pos + 1, pos + 1 + count);
            out.extend_from_slice(chunk);
            assert(out@ == old_out + delta@.subrange(pos + 1, pos + 1 + cmd));
            pos = pos + 1 + count;
        }
    }
    Ok(out)
}

/// Applies a delta stream to a base object and returns the bytes of the
/// object it describes. The result has exactly the length that the stream
/// announces.
pub fn apply_delta(base: &[u8], delta: &[u8]) -> (r: Result<Vec<u8>, GitError>)
    ensures
        match r {
            Ok(out) => delta_result(base@, delta@) == Ok::<_, ErrorView>(out@)
                && delta_target_size(delta@) == Some(out@.len() as u64),
            Err(e) => delta_result(base@, delta@) == Err::<Seq<u8>, _>(e@),
        },
{
    let (source_size, after_source) = match read_size_encoding(delta, 0) {
        Ok(x) => x,
        Err(e) => {
            return Err(e);
        },
    };
    if source_size != base.len() as u64 {
        return Err(GitError::CorruptObject);
    }
    let (target_size, after_target) = match read_size_encoding(delta, after_source) {
        Ok(x) => x,
        Err(e) => {
            return Err(e);
        },
    };
    match run(base, delta, after_target, target_size) {
        Err(e) => Err(e),
        Ok(out) => {
            if out.len() as u64 != target_size {
                return Err(GitError::CorruptObject);
            }
            Ok(out)
        },
    }
}

} // verus!
