//! Bringing index entries into the order of an index file: ascending by
//! hash, one entry per hash.

use vstd::prelude::*;
use crate::git::hash::lemma_be_value_injective;
use crate::git::idx::IdxItem;

verus! {

/// Whether `a` may stand before `b`: by hash first, by offset among entries
/// of one hash.
pub open spec fn item_le(a: IdxItem, b: IdxItem) -> bool {
    a.id.value() < b.id.value() || (a.id.value() == b.id.value() && a.offset <= b.offset)
}

/// Whether every entry may stand before all that follow it.
pub open spec fn sorted(items: Seq<IdxItem>) -> bool {
    forall|i: int, j: int| 0 <= i < j < items.len() ==> item_le(items[i], items[j])
}

/// Whether the hashes ascend strictly, so that none occurs twice.
pub open spec fn strictly_ascending(items: Seq<IdxItem>) -> bool {
    forall|i: int, j: int|
        0 <= i < j < items.len() ==> (#[trigger] items[i]).id.value() < (#[trigger] items[j]).id.value()
}

/// Whether `items` holds an entry with the hash of `x` and an offset that is
/// no larger.
pub open spec fn represented(items: Seq<IdxItem>, x: IdxItem) -> bool {
    exists|m: int|
        0 <= m < items.len() && (#[trigger] items[m]).id == x.id && items[m].offset <= x.offset
}

/// Whether `a` may stand before `b`.
fn le(a: &IdxItem, b: &IdxItem) -> (r: bool)
    ensures
        r == item_le(*a, *b),
{
    if a.id.less_than(&b.id) {
        true
    } else if b.id.less_than(&a.id) {
        false
    } else {
        a.offset <= b.offset
    }
}

/// Merges two sorted runs into one.
fn merge(a: &Vec<IdxItem>, b: &Vec<IdxItem>) -> (r: Vec<IdxItem>)
    requires
        sorted(a@),
        sorted(b@),
        a@.len() + b@.len() <= usize::MAX,
    ensures
        sorted(r@),
        r@.len() == a@.len() + b@.len(),
        forall|k: int| 0 <= k < r@.len() ==> a@.contains(#[trigger] r@[k]) || b@.contains(r@[k]),
        forall|k: int| 0 <= k < a@.len() ==> r@.contains(#[trigger] a@[k]),
        forall|k: int| 0 <= k < b@.len() ==> r@.contains(#[trigger] b@[k]),
{
    let mut r: Vec<IdxItem> = Vec::with_capacity(a.len() + b.len());
    let mut i: usize = 0;
    let mut j: usize = 0;
    while i < a.len() || j < b.len()
        invariant
            i <= a@.len(),
            j <= b@.len(),
            sorted(a@),
            sorted(b@),
            sorted(r@),
            r@.len() == i + j,
            forall|m: int| 0 <= m < r@.len() && i < a@.len() ==> item_le(#[trigger] r@[m], a@[i as int]),
            forall|m: int| 0 <= m < r@.len() && j < b@.len() ==> item_le(#[trigger] r@[m], b@[j as int]),
            forall|k: int| 0 <= k < r@.len() ==> a@.contains(#[trigger] r@[k]) || b@.contains(r@[k]),
            forall|k: int| 0 <= k < i ==> r@.contains(#[trigger] a@[k]),
            forall|k: int| 0 <= k < j ==> r@.contains(#[trigger] b@[k]),
        decreases a@.len() - i + b@.len() - j,
    {
        let ghost before = r@;
        let take_a = if i >= a.len() {
            false
        } else if j >= b.len() {
            true
        } else {
            le(&a[i], &b[j])
        };
        if take_a {
            let x = a[i];
            r.push(x);
            proof {
                assert(r@[r@.len() - 1] == x);
                assert forall|k: int| 0 <= k < i + 1 implies r@.contains(#[trigger] a@[k]) by {
                    if k < i {
                        let m = choose|m: int| 0 <= m < before.len() && before[m] == a@[k];
                        assert(r@[m] == a@[k]);
                    } else {
                        assert(r@[r@.len() - 1] == a@[k]);
                    }
                }
                assert forall|k: int| 0 <= k < j implies r@.contains(#[trigger] b@[k]) by {
                    let m = choose|m: int| 0 <= m < before.len() && before[m] == b@[k];
                    assert(r@[m] == b@[k]);
                }
                assert forall|k: int| 0 <= k < r@.len() implies a@.contains(#[trigger] r@[k])
                    || b@.contains(r@[k]) by {
                    if k < before.len() {
                        assert(r@[k] == before[k]);
                    } else {
                        assert(a@[i as int] == r@[k]);
                    }
                }
                assert forall|p: int, q: int| 0 <= p < q < r@.len() implies item_le(
                    r@[p],
                    r@[q],
                ) by {
                    if q < before.len() {
                        assert(item_le(before[p], before[q]));
                    } else {
                        assert(item_le(before[p], a@[i as int]));
                    }
                }
                assert forall|m: int| 0 <= m < r@.len() && i + 1 < a@.len() implies item_le(
                    #[trigger] r@[m],
                    a@[i + 1],
                ) by {
                    assert(item_le(a@[i as int], a@[i + 1]));
                    if m < before.len() {
                        assert(item_le(before[m], a@[i as int]));
                    }
                }
                assert forall|m: int| 0 <= m < r@.len() && j < b@.len() implies item_le(
                    #[trigger] r@[m],
                    b@[j as int],
                ) by {
                    if m < before.len() {
                        assert(item_le(before[m], b@[j as int]));
                    }
                }
            }
            i += 1;
        } else {
            let x = b[j];
            r.push(x);
            proof {
                assert(r@[r@.len() - 1] == x);
                assert forall|k: int| 0 <= k < j + 1 implies r@.contains(#[trigger] b@[k]) by {
                    if k < j {
                        let m = choose|m: int| 0 <= m < before.len() && before[m] == b@[k];
                        assert(r@[m] == b@[k]);
                    } else {
                        assert(r@[r@.len() - 1] == b@[k]);
                    }
                }
                assert forall|k: int| 0 <= k < i implies r@.contains(#[trigger] a@[k]) by {
                    let m = choose|m: int| 0 <= m < before.len() && before[m] == a@[k];
                    assert(r@[m] == a@[k]);
                }
                assert forall|k: int| 0 <= k < r@.len() implies a@.contains(#[trigger] r@[k])
                    || b@.contains(r@[k]) by {
                    if k < before.len() {
                        assert(r@[k] == before[k]);
                    } else {
                        assert(b@[j as int] == r@[k]);
                    }
                }
                assert forall|p: int, q: int| 0 <= p < q < r@.len() implies item_le(
                    r@[p],
                    r@[q],
                ) by {
                    if q < before.len() {
                        assert(item_le(before[p], before[q]));
                    } else {
                        assert(item_le(before[p], b@[j as int]));
                    }
                }
                assert forall|m: int| 0 <= m < r@.len() && j + 1 < b@.len() implies item_le(
                    #[trigger] r@[m],
                    b@[j + 1],
                ) by {
                    assert(item_le(b@[j as int], b@[j + 1]));
                    if m < before.len() {
                        assert(item_le(before[m], b@[j as int]));
                    }
                }
                assert forall|m: int| 0 <= m < r@.len() && i < a@.len() implies item_le(
                    #[trigger] r@[m],
                    a@[i as int],
                ) by {
                    if m < before.len() {
                        assert(item_le(before[m], a@[i as int]));
                    }
                }
            }
            j += 1;
        }
    }
    r
}

/// Sorts the entries `items[lo..hi]`.
fn sort_range(items: &Vec<IdxItem>, lo: usize, hi: usize) -> (r: Vec<IdxItem>)
    requires
        lo <= hi <= items@.len(),
    ensures
        sorted(r@),
        r@.len() == hi - lo,
        forall|k: int| 0 <= k < r@.len() ==> items@.subrange(lo as int, hi as int).contains(
            #[trigger] r@[k],
        ),
        forall|k: int| lo <= k < hi ==> r@.contains(#[trigger] items@[k]),
    decreases hi - lo,
{
    if hi - lo == 0 {
        return Vec::new();
    }
    if hi - lo == 1 {
        let mut r: Vec<IdxItem> = Vec::new();
        r.push(items[lo]);
        proof {
            assert(r@[0] == items@[lo as int]);
            assert(items@.subrange(lo as int, hi as int)[0] == items@[lo as int]);
        }
        return r;
    }
    let mid = lo + (hi - lo) / 2;
    let a = sort_range(items, lo, mid);
    let b = sort_range(items, mid, hi);
    let r = merge(&a, &b);
    proof {
        let whole = items@.subrange(lo as int, hi as int);
        let left = items@.subrange(lo as int, mid as int);
        let right = items@.subrange(mid as int, hi as int);
        assert forall|k: int| 0 <= k < r@.len() implies whole.contains(#[trigger] r@[k]) by {
            if a@.contains(r@[k]) {
                let m = choose|m: int| 0 <= m < a@.len() && a@[m] == r@[k];
                assert(left.contains(a@[m]));
                let n = choose|n: int| 0 <= n < left.len() && left[n] == a@[m];
                assert(whole[n] == r@[k]);
            } else {
                let m = choose|m: int| 0 <= m < b@.len() && b@[m] == r@[k];
                assert(right.contains(b@[m]));
                let n = choose|n: int| 0 <= n < right.len() && right[n] == b@[m];
                assert(whole[n + mid - lo] == r@[k]);
            }
        }
        assert forall|k: int| lo <= k < hi implies r@.contains(#[trigger] items@[k]) by {
            if k < mid {
                assert(a@.contains(items@[k]));
                let m = choose|m: int| 0 <= m < a@.len() && a@[m] == items@[k];
                assert(r@.contains(a@[m]));
            } else {
                assert(b@.contains(items@[k]));
                let m = choose|m: int| 0 <= m < b@.len() && b@[m] == items@[k];
                assert(r@.contains(b@[m]));
            }
        }
    }
    r
}

/// Appending an entry whose hash is larger than the last keeps the hashes
/// strictly ascending.
proof fn lemma_push_keeps_ascending(items: Seq<IdxItem>, x: IdxItem)
    requires
        strictly_ascending(items),
        items.len() > 0 ==> items[items.len() - 1].id.value() < x.id.value(),
    ensures
        strictly_ascending(items.push(x)),
{
    let r = items.push(x);
    assert forall|i: int, j: int| 0 <= i < j < r.len() implies (#[trigger] r[i]).id.value() < (
    #[trigger] r[j]).id.value() by {
        if j < items.len() {
            assert(items[i].id.value() < items[j].id.value());
        } else if i < items.len() - 1 {
            assert(items[i].id.value() < items[items.len() - 1].id.value());
        }
    }
}

/// Two entries with different hashes, the first of which may stand before the
/// second, have hashes that ascend strictly.
proof fn lemma_different_hashes_ascend(a: IdxItem, b: IdxItem)
    requires
        item_le(a, b),
        a.id@ != b.id@,
    ensures
        a.id.value() < b.id.value(),
{
    if a.id.value() == b.id.value() {
        lemma_be_value_injective(a.id@, b.id@);
    }
}

/// Of a sorted run, keeps the first entry of every hash.
fn first_of_each_hash(s: &Vec<IdxItem>) -> (r: Vec<IdxItem>)
    requires
        sorted(s@),
    ensures
        strictly_ascending(r@),
        forall|m: int| 0 <= m < r@.len() ==> s@.contains(#[trigger] r@[m]),
        forall|q: int| 0 <= q < s@.len() ==> represented(r@, #[trigger] s@[q]),
{
    let mut r: Vec<IdxItem> = Vec::new();
    let mut k: usize = 0;
    while k < s.len()
        invariant
            k <= s@.len(),
            sorted(s@),
            strictly_ascending(r@),
            (k == 0) == (r@.len() == 0),
            k > 0 ==> r@[r@.len() - 1].id == s@[k - 1].id,
            forall|m: int| 0 <= m < r@.len() ==> s@.contains(#[trigger] r@[m]),
            forall|q: int| 0 <= q < k ==> represented(r@, #[trigger] s@[q]),
        decreases s@.len() - k,
    {
        let ghost before = r@;
        let x = s[k];
        let fresh = if r.len() == 0 {
            true
        } else {
            !r[r.len() - 1].id.same(&x.id)
        };
        if fresh {
            proof {
                if before.len() > 0 {
                    assert(item_le(s@[k - 1], s@[k as int]));
                    lemma_different_hashes_ascend(s@[k - 1], x);
                }
                lemma_push_keeps_ascending(before, x);
            }
            r.push(x);
            proof {
                let last = r@.len() - 1;
                assert(r@ == before.push(x));
                assert forall|m: int| 0 <= m < r@.len() implies s@.contains(#[trigger] r@[m]) by {
                    if m < last {
                        assert(before[m] == r@[m]);
                    } else {
                        assert(s@[k as int] == r@[m]);
                    }
                }
                assert forall|q: int| 0 <= q < k + 1 implies represented(r@, #[trigger] s@[q]) by {
                    if q < k {
                        assert(represented(before, s@[q]));
                        let m = choose|m: int|
                            0 <= m < before.len() && (#[trigger] before[m]).id == s@[q].id
                                && before[m].offset <= s@[q].offset;
                        assert(r@[m] == before[m]);
                    } else {
                        assert(r@[last].id == s@[q].id);
                    }
                }
            }
        } else {
            proof {
                // x repeats the hash of the entry before it, which is already
                // represented by an entry with an offset that is no larger
                assert(represented(r@, s@[k - 1]));
                let m = choose|m: int|
                    0 <= m < r@.len() && (#[trigger] r@[m]).id == s@[k - 1].id && r@[m].offset
                        <= s@[k - 1].offset;
                assert(item_le(s@[k - 1], s@[k as int]));
                assert(s@[k - 1].id == x.id);
                assert(r@[m].id == x.id && r@[m].offset <= x.offset);
            }
        }
        k += 1;
    }
    r
}

/// Brings entries into the order of an index file: ascending by hash, and of
/// several entries with one hash only the one with the least offset.
pub fn sort_items(items: &Vec<IdxItem>) -> (r: Vec<IdxItem>)
    ensures
        strictly_ascending(r@),
        forall|k: int| 0 <= k < r@.len() ==> items@.contains(#[trigger] r@[k]),
        forall|k: int| 0 <= k < items@.len() ==> represented(r@, #[trigger] items@[k]),
{
    let s = sort_range(items, 0, items.len());
    let r = first_of_each_hash(&s);
    proof {
        assert(items@.subrange(0, items@.len() as int) =~= items@);
        assert forall|m: int| 0 <= m < r@.len() implies items@.contains(#[trigger] r@[m]) by {
            assert(s@.contains(r@[m]));
            let q = choose|q: int| 0 <= q < s@.len() && s@[q] == r@[m];
            assert(items@.subrange(0, items@.len() as int).contains(s@[q]));
        }
        assert forall|q: int| 0 <= q < items@.len() implies represented(
            r@,
            #[trigger] items@[q],
        ) by {
            assert(s@.contains(items@[q]));
            let p = choose|p: int| 0 <= p < s@.len() && s@[p] == items@[q];
            assert(represented(r@, s@[p]));
        }
    }
    r
}

} // verus!
