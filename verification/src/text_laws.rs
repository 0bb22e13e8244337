//! Searching the data of a string column finds the rows that have the string.

use vstd::prelude::*;

use crate::bytes::{law_search_sorted_words, search_words, u32_le, words_sorted};
use crate::codec::ColumnCodec;
use crate::model::{ScanError, V4Footer};
use crate::numeric::{min2, row_open};
use crate::select::select;
use crate::text::TextSeq;
use crate::text_filter::{positions, row_at, rows_by_position, sift};
use crate::text_scan::{all_equal_from, group_all_equal};

verus! {

/// Whether every string has a byte, the strings follow each other and lie in data that offsets can
/// reach.
pub open spec fn strings_follow(t: TextSeq) -> bool {
    &&& 0 <= t.count < usize::MAX
    &&& t.offsets.len() == (t.count + 1) * 4
    &&& t.raw().len() <= u32::MAX
    &&& t.start(t.count) <= t.raw().len()
    &&& forall|i: int, j: int| 0 <= i < j <= t.count ==> #[trigger] t.start(i) < #[trigger] t.start(j)
}

/// The rows whose string is `target`, neither deleted nor missing.
pub open spec fn equal_rows(t: TextSeq, target: Seq<u8>, del: Option<Seq<u8>>, nulls: Seq<u8>) -> spec_fn(
    int,
) -> bool {
    |i: int|
        row_open(del, Some(nulls), i) && t.raw().subrange(t.start(i), t.end(i)) == target
}

/// An occurrence that starts where a row starts is that row where it ends with it.
proof fn row_at_start(
    t: TextSeq,
    target: Seq<u8>,
    n: int,
    del: Option<Seq<u8>>,
    nulls: Seq<u8>,
    r: int,
)
    requires
        strings_follow(t),
        0 <= n <= t.count,
        0 <= r < t.count,
    ensures
        row_at(t, target, n, del, nulls, t.start(r)) == (if r < n && equal_rows(
            t,
            target,
            del,
            nulls,
        )(r) {
            Some(r)
        } else {
            None
        }),
{
    let p = t.start(r);
    starts_sorted(t);
    assert(t.start(r) < t.start(r + 1));
    if r + 1 < t.count {
        assert(t.start(r + 1) < t.start(t.count));
    }
    law_search_sorted_words(t.offsets, t.count, p as u32);
    assert(u32_le(t.offsets, r * 4) == p as u32);
    let k = search_words(t.offsets, t.count, p as u32)->0 as int;
    assert(t.start(k) == p);
    if k < r {
        assert(t.start(k) < t.start(r));
    }
    if r < k {
        assert(t.start(r) < t.start(k));
    }
    assert(k == r);
    assert((r + 1) * 4 + 4 <= t.offsets.len());
    let end = t.start(r + 1);
    assert(t.end(r) == end);
    if end - p == target.len() {
        assert(p + target.len() == end);
    } else if t.raw().subrange(p, end) == target {
        assert(t.raw().subrange(p, end).len() == end - p);
    }
}

/// An occurrence that starts where no row starts is no row.
proof fn row_at_nothing(
    t: TextSeq,
    target: Seq<u8>,
    n: int,
    del: Option<Seq<u8>>,
    nulls: Seq<u8>,
    p: int,
)
    requires
        strings_follow(t),
        0 <= p <= u32::MAX,
        forall|r: int| 0 <= r < t.count ==> #[trigger] t.start(r) != p,
    ensures
        row_at(t, target, n, del, nulls, p) is None,
{
    starts_sorted(t);
    law_search_sorted_words(t.offsets, t.count, p as u32);
    if let Some(k) = search_words(t.offsets, t.count, p as u32) {
        assert(t.start(k as int) == p);
    }
}

proof fn starts_sorted(t: TextSeq)
    requires
        strings_follow(t),
    ensures
        words_sorted(t.offsets, t.count),
{
    assert forall|i: int, j: int| 0 <= i <= j < t.count implies #[trigger] u32_le(t.offsets, i * 4)
        <= #[trigger] u32_le(t.offsets, j * 4) by {
        if i < j {
            assert(t.start(i) < t.start(j));
        }
    }
}

/// Looking at the positions before a row is looking at the rows before it.
proof fn sift_to_row(
    t: TextSeq,
    target: Seq<u8>,
    n: int,
    del: Option<Seq<u8>>,
    nulls: Seq<u8>,
    base: int,
    acc: Seq<usize>,
    max: int,
    r: int,
    p: int,
)
    requires
        strings_follow(t),
        0 <= n <= t.count,
        0 <= r <= t.count,
        0 <= p <= u32::MAX + 1,
        r > 0 ==> t.start(r - 1) < p,
        r < t.count ==> p <= t.start(r),
    ensures
        sift(rows_by_position(t, target, n, del, nulls), p, base, acc, max) == select(
            equal_rows(t, target, del, nulls),
            min2(r, n),
            base,
            acc,
            max,
        ),
    decreases p,
{
    let pick = rows_by_position(t, target, n, del, nulls);
    let hit = equal_rows(t, target, del, nulls);
    if p > 0 {
        let q = p - 1;
        if r > 0 && t.start(r - 1) == q {
            row_at_start(t, target, n, del, nulls, r - 1);
            if r > 1 {
                assert(t.start(r - 2) < t.start(r - 1));
            }
            sift_to_row(t, target, n, del, nulls, base, acc, max, r - 1, q);
            assert(pick(q) == row_at(t, target, n, del, nulls, q));
        } else {
            assert forall|k: int| 0 <= k < t.count implies #[trigger] t.start(k) != q by {
                if k < r - 1 {
                    assert(t.start(k) < t.start(r - 1));
                }
                if k > r {
                    assert(t.start(r) < t.start(k));
                }
            }
            row_at_nothing(t, target, n, del, nulls, q);
            sift_to_row(t, target, n, del, nulls, base, acc, max, r, q);
            assert(pick(q) == row_at(t, target, n, del, nulls, q));
        }
    } else {
        if r > 0 {
            assert(t.start(r - 1) >= 0);
        }
    }
}

/// Searching the data of a string column for a string gives the rows that have it, as going through
/// the rows would. Every string has at least one byte: one without bytes starts where the next one
/// does, and a search that lands there misses that one.
pub proof fn law_search_finds_rows(
    t: TextSeq,
    target: Seq<u8>,
    n: int,
    del: Option<Seq<u8>>,
    nulls: Seq<u8>,
    base: int,
    acc: Seq<usize>,
    max: int,
)
    requires
        strings_follow(t),
        0 <= n <= t.count,
    ensures
        sift(
            rows_by_position(t, target, n, del, nulls),
            positions(t.raw()),
            base,
            acc,
            max,
        ) == select(equal_rows(t, target, del, nulls), n, base, acc, max),
{
    let p = positions(t.raw());
    if t.count > 0 {
        assert(t.start(t.count - 1) < t.start(t.count));
    }
    sift_to_row(t, target, n, del, nulls, base, acc, max, t.count, p);
}

/// Where every row is said to have a value, each row group says so: all of its rows have the index of
/// that value.
pub proof fn law_all_rows_equal<C: ColumnCodec>(
    c: C,
    f: V4Footer,
    file: Seq<u8>,
    col: int,
    target: Seq<u8>,
    from: int,
    i: int,
)
    requires
        0 <= from <= i < f.row_groups@.len(),
        all_equal_from(c, f, file, col, target, from) == Ok::<Option<bool>, ScanError>(Some(true)),
    ensures
        group_all_equal(c, f, file, col, target, i) == Ok::<Option<bool>, ScanError>(Some(true)),
    decreases i - from,
{
    if from < i {
        law_all_rows_equal(c, f, file, col, target, from + 1, i);
    }
}

} // verus!
