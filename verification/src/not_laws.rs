//! Counting rows outside of a range that do not match a prefix: by way of the order of the strings as
//! row by row.

use vstd::prelude::*;

use crate::bytes::{bit, bitmap_len, i64_le, packed_value};
use crate::codec::ColumnCodec;
use crate::column::ColumnSeq;
use crate::double::F64;
use crate::group::{stored_group, tail, window};
use crate::like::{has_at, shape_of, LikeShape};
use crate::model::{
    is_float, is_int, is_text, rows_before, rows_before_monotonic, ScanError, V4Footer,
    COL_ENCODING_BITPACK, COL_ENCODING_PLAIN,
};
use crate::not_count::{
    apart_text, count_out, count_outside, group_full, inside, local_range, no_gaps, numbers_len,
    numbers_of_column, outside, undeleted, NotSeq,
};
use crate::numeric::{min2, range_test, NumSeq};
use crate::order::{lex_less, lex_transitive};
use crate::scan_laws::group_bounds;
use crate::select::count_checked;
use crate::sorted::{
    after_prefix, column_bytes, law_lower_bound, law_prefix_bounds, law_prefix_range, order_in,
    order_upto, sorted_text, texts_upto, Order,
};
use crate::storage::OnDemandStorage;
use crate::text::{plain_text, StrTestSeq, TextSeq};
use crate::text_scan::{all_quick, has_bits, quick_column, quick_group};

verus! {

/// The numbers of row group `i`, decoded.
pub open spec fn decoded_numbers<C: ColumnCodec>(
    c: C,
    f: V4Footer,
    file: Seq<u8>,
    col: int,
    i: int,
) -> Option<ColumnSeq> {
    let bm = bitmap_len(f.row_groups@[i].row_count as int);
    match column_bytes(f, file, col, i) {
        Ok(Some(s)) => match c.decoded(true, tail(s, bm), f.schema.kind(col)) {
            Some((v, _)) => Some(v),
            None => None,
        },
        _ => None,
    }
}

/// Whether row group `i` has a number and a string for each row, and packed numbers, read in place,
/// are those that decoding gives.
#[verifier::opaque]
pub open spec fn sound_pair<C: ColumnCodec>(
    c: C,
    f: V4Footer,
    file: Seq<u8>,
    num: int,
    text: int,
    i: int,
) -> bool {
    let rows = f.row_groups@[i].row_count as int;
    let bm = bitmap_len(rows);
    let col = tail(column_bytes(f, file, num, i)->Ok_0->0, bm);
    &&& decoded_numbers(c, f, file, num, i) matches Some(v) && numbers_len(v) matches Some(n) && n
        >= rows && (is_int(f.schema.kind(num)) && col.len() >= 18 && col[0] == COL_ENCODING_BITPACK
        ==> v is Int64 && forall|r: int|
        0 <= r < rows ==> #[trigger] packed_value(tail(col, 18), col[9] as int, i64_le(col, 10), r)
            == Some(v->Int64_0[r]))
    &&& sorted_text(f, file, text, true, i) matches Ok(Some(t)) ==> t.count >= rows
}

/// A bitmap without a set byte has no set bit.
pub(crate) proof fn no_bits(s: Seq<u8>, n: int)
    requires
        !has_bits(s),
        bitmap_len(n) <= s.len(),
    ensures
        forall|r: int| 0 <= r < n ==> !#[trigger] bit(s, r),
{
    assert forall|r: int| 0 <= r < n implies !#[trigger] bit(s, r) by {
        let k: u8 = (r % 8) as u8;
        assert(s[r / 8] == 0);
        assert((0u8 >> k) & 1u8 == 0u8) by (bit_vector);
    }
}

/// Counting row by row in a row group leaves out of the rows outside of the range those of the stretch
/// whose strings have the prefix.
proof fn rows_apart(
    src: NumSeq,
    t: TextSeq,
    prefix: Seq<u8>,
    nulls: Seq<u8>,
    others: Seq<u8>,
    v: ColumnSeq,
    low: F64,
    high: F64,
    a: int,
    b: int,
    rows: int,
    r: int,
)
    requires
        0 <= r <= rows,
        0 <= a,
        forall|k: int| 0 <= k < rows ==> !#[trigger] bit(nulls, k),
        forall|k: int| 0 <= k < rows ==> !#[trigger] bit(others, k),
        forall|k: int| 0 <= k < rows ==> (#[trigger] t.value(k)) is Some,
        forall|k: int|
            0 <= k < rows ==> (a <= k < b) == has_at((#[trigger] t.value(k))->0, prefix, 0),
        forall|k: int|
            0 <= k < rows ==> #[trigger] inside(src, range_test(low, high), k) == !outside(
                v,
                low,
                high,
                k,
            ),
    ensures
        count_checked(
            apart_text(
                src,
                range_test(low, high),
                t,
                StrTestSeq::Like(LikeShape::Prefix(prefix)),
                None,
                nulls,
                others,
            ),
            r,
        ) == Some(
            count_outside(v, low, high, 0, r) - count_outside(v, low, high, a, min2(b, r)),
        ),
    decreases r,
{
    if r > 0 {
        rows_apart(src, t, prefix, nulls, others, v, low, high, a, b, rows, r - 1);
        let k = r - 1;
        assert(!bit(nulls, k) && !bit(others, k));
        assert(t.value(k) is Some);
        assert(inside(src, range_test(low, high), k) == !outside(v, low, high, k));
    }
}

/// A column that is in order has strings in each row group with rows, all of which can be read.
proof fn ordered_texts(f: V4Footer, file: Seq<u8>, col: int, k: int, i: int)
    requires
        0 <= i < k <= f.row_groups@.len(),
        order_upto(f, file, col, k) is Ascending,
        f.row_groups@[i].row_count > 0,
    ensures
        sorted_text(f, file, col, true, i) matches Ok(Some(t)) && forall|r: int|
            0 <= r < min2(t.count, f.row_groups@[i].row_count as int) ==> (#[trigger] t.value(r)) is Some,
    decreases k,
{
    if i < k - 1 {
        ordered_texts(f, file, col, k - 1, i);
    } else {
        let rows = f.row_groups@[i].row_count as int;
        let t = sorted_text(f, file, col, true, i)->Ok_0->0;
        ordered_values(t, order_upto(f, file, col, i), min2(t.count, rows));
    }
}

proof fn ordered_values(t: TextSeq, before: Order, k: int)
    requires
        order_in(t, before, k) is Ascending,
    ensures
        forall|r: int| 0 <= r < k ==> (#[trigger] t.value(r)) is Some,
    decreases k,
{
    if k > 0 {
        ordered_values(t, before, k - 1);
    }
}

/// The strings of a row group stand behind those of the row groups before it.
proof fn texts_at<C: ColumnCodec>(
    c: C,
    f: V4Footer,
    file: Seq<u8>,
    num: int,
    text: int,
    k: int,
    i: int,
    r: int,
)
    requires
        f.wf(),
        0 <= i < k <= f.row_groups@.len(),
        0 <= r < f.row_groups@[i].row_count,
        order_upto(f, file, text, f.row_groups@.len() as int) is Ascending,
        forall|j: int|
            0 <= j < f.row_groups@.len() && f.row_groups@[j].row_count > 0 ==> #[trigger] sound_pair(
                c,
                f,
                file,
                num,
                text,
                j,
            ),
    ensures
        texts_upto(f, file, text, k).len() == rows_before(f.row_groups@, k),
        texts_upto(f, file, text, k)[rows_before(f.row_groups@, i) + r] == sorted_text(
            f,
            file,
            text,
            true,
            i,
        )->Ok_0->0.value(r)->0,
    decreases k,
{
    reveal(sound_pair);
    texts_fill(c, f, file, num, text, k - 1);
    let n = f.row_groups@[k - 1].row_count as int;
    if n > 0 {
        ordered_texts(f, file, text, f.row_groups@.len() as int, k - 1);
        assert(sound_pair(c, f, file, num, text, k - 1));
    }
    if i < k - 1 {
        texts_at(c, f, file, num, text, k - 1, i, r);
        rows_before_monotonic(f.row_groups@, i + 1, k - 1);
        rows_before_monotonic(f.row_groups@, 0, i);
    }
}

proof fn texts_fill<C: ColumnCodec>(c: C, f: V4Footer, file: Seq<u8>, num: int, text: int, k: int)
    requires
        f.wf(),
        0 <= k <= f.row_groups@.len(),
        order_upto(f, file, text, f.row_groups@.len() as int) is Ascending,
        forall|j: int|
            0 <= j < f.row_groups@.len() && f.row_groups@[j].row_count > 0 ==> #[trigger] sound_pair(
                c,
                f,
                file,
                num,
                text,
                j,
            ),
    ensures
        texts_upto(f, file, text, k).len() == rows_before(f.row_groups@, k),
    decreases k,
{
    reveal(sound_pair);
    if k > 0 {
        texts_fill(c, f, file, num, text, k - 1);
        if f.row_groups@[k - 1].row_count > 0 {
            ordered_texts(f, file, text, f.row_groups@.len() as int, k - 1);
            assert(sound_pair(c, f, file, num, text, k - 1));
        }
    }
}

/// The strings of a row group, as they are read in place.
proof fn text_parts(f: V4Footer, file: Seq<u8>, text: int, i: int)
    requires
        0 <= i < f.row_groups@.len(),
        f.row_groups@[i].row_count > 0,
        quick_group(f, file, text, i),
        sorted_text(f, file, text, true, i) matches Ok(Some(_)),
    ensures
        quick_column(f, file, text, i) matches Some(quick) && quick.encoding == COL_ENCODING_PLAIN
            && plain_text(quick.data) == sorted_text(f, file, text, true, i)->Ok_0 && forall|r: int|
            0 <= r < f.row_groups@[i].row_count ==> !#[trigger] bit(quick.nulls, r),
{
    let meta = f.row_groups@[i];
    let rows = meta.row_count as int;
    let bm = bitmap_len(rows);
    let ts = column_bytes(f, file, text, i)->Ok_0->0;
    let s = stored_group(meta, file)->Ok_0;
    let body = tail(s, 32);
    let o = f.rcix(i, text)->0;
    assert(o + bm <= body.len());
    assert(window(body, o, bm) == Some(body.subrange(o, o + bm)));
    assert(body.subrange(o, o + bm) =~= ts.subrange(0, bm));
    assert(tail(body, o + bm) =~= tail(ts, bm));
    assert(tail(tail(ts, bm), 1) =~= tail(ts, bm + 1));
    no_bits(ts.subrange(0, bm), rows);
}

/// The numbers of a row group, as they are read in place.
proof fn number_parts(f: V4Footer, file: Seq<u8>, num: int, i: int)
    requires
        0 <= i < f.row_groups@.len(),
        f.row_groups@[i].row_count > 0,
        quick_group(f, file, num, i),
        group_full(f, file, num, i),
    ensures
        ({
            let meta = f.row_groups@[i];
            let rows = meta.row_count as int;
            let bm = bitmap_len(rows);
            let ns = column_bytes(f, file, num, i)->Ok_0->0;
            let body = tail(stored_group(meta, file)->Ok_0, 32);
            let o = f.rcix(i, num)->0;
            &&& column_bytes(f, file, num, i) matches Ok(Some(_))
            &&& window(body, o, bm) == Some(ns.take(bm))
            &&& tail(body, o + bm) == tail(ns, bm)
            &&& forall|r: int| 0 <= r < rows ==> !#[trigger] bit(ns.take(bm), r)
        }),
{
    let meta = f.row_groups@[i];
    let rows = meta.row_count as int;
    let bm = bitmap_len(rows);
    let ns = column_bytes(f, file, num, i)->Ok_0->0;
    let s = stored_group(meta, file)->Ok_0;
    let body = tail(s, 32);
    let o = f.rcix(i, num)->0;
    assert(o + bm <= body.len());
    assert(body.subrange(o, o + bm) =~= ns.take(bm));
    assert(tail(body, o + bm) =~= tail(ns, bm));
    no_bits(ns.take(bm), rows);
}

/// Whether a number lies inside is the same for packed numbers and decoded ones.
proof fn same_inside<C: ColumnCodec>(
    c: C,
    f: V4Footer,
    file: Seq<u8>,
    num: int,
    text: int,
    low: F64,
    high: F64,
    i: int,
)
    requires
        sound_pair(c, f, file, num, text, i),
        column_bytes(f, file, num, i) matches Ok(Some(_)),
    ensures
        ({
            let rows = f.row_groups@[i].row_count as int;
            let ns = column_bytes(f, file, num, i)->Ok_0->0;
            let v = decoded_numbers(c, f, file, num, i)->0;
            numbers_of_column(c, f.schema.kind(num), tail(ns, bitmap_len(rows))) matches Ok(
                Some(src),
            ) && src.covers(rows) && forall|k: int|
                0 <= k < rows ==> #[trigger] inside(src, range_test(low, high), k) == !outside(
                    v,
                    low,
                    high,
                    k,
                )
        }),
{
    reveal(sound_pair);
    let rows = f.row_groups@[i].row_count as int;
    let ns = column_bytes(f, file, num, i)->Ok_0->0;
    let col = tail(ns, bitmap_len(rows));
    let kind = f.schema.kind(num);
    let v = decoded_numbers(c, f, file, num, i)->0;
    let src = numbers_of_column(c, kind, col)->Ok_0->0;
    assert forall|k: int| 0 <= k < rows implies #[trigger] inside(src, range_test(low, high), k)
        == !outside(v, low, high, k) by {
        if is_int(kind) && col.len() >= 18 && col[0] == COL_ENCODING_BITPACK {
            assert(packed_value(tail(col, 18), col[9] as int, i64_le(col, 10), k) == Some(
                v->Int64_0[k],
            ));
        }
    }
}

/// A row group, counted row by row.
proof fn group_by_row<C: ColumnCodec>(
    c: C,
    f: V4Footer,
    file: Seq<u8>,
    q: NotSeq,
    low: F64,
    high: F64,
    prefix: Seq<u8>,
    lo: int,
    hi: int,
    i: int,
)
    requires
        f.wf(),
        0 <= i < f.row_groups@.len(),
        f.row_groups@[i].row_count > 0,
        q.num_kind == f.schema.kind(q.num),
        q.text_kind is String,
        q.test == range_test(low, high),
        q.like == StrTestSeq::Like(LikeShape::Prefix(prefix)),
        quick_group(f, file, q.num, i),
        quick_group(f, file, q.text, i),
        group_full(f, file, q.num, i),
        f.row_groups@[i].deletion_count == 0,
        order_upto(f, file, q.text, f.row_groups@.len() as int) is Ascending,
        sound_pair(c, f, file, q.num, q.text, i),
        forall|r: int|
            0 <= r < f.row_groups@[i].row_count ==> (lo <= rows_before(f.row_groups@, i) + r < hi)
                == has_at(
                (#[trigger] sorted_text(f, file, q.text, true, i)->Ok_0->0.value(r))->0,
                prefix,
                0,
            ),
    ensures
        ({
            let rows = f.row_groups@[i].row_count as int;
            let v = decoded_numbers(c, f, file, q.num, i)->0;
            let (a, b) = local_range(lo, hi, rows_before(f.row_groups@, i), rows);
            q.group(c, f, file, i) == Ok::<int, ScanError>(
                count_outside(v, low, high, 0, rows) - count_outside(v, low, high, a, b),
            )
        }),
{
    let rows = f.row_groups@[i].row_count as int;
    let bm = bitmap_len(rows);
    let start = rows_before(f.row_groups@, i);
    reveal(sound_pair);
    ordered_texts(f, file, q.text, f.row_groups@.len() as int, i);
    text_parts(f, file, q.text, i);
    number_parts(f, file, q.num, i);
    same_inside(c, f, file, q.num, q.text, low, high, i);
    let t = sorted_text(f, file, q.text, true, i)->Ok_0->0;
    let ns = column_bytes(f, file, q.num, i)->Ok_0->0;
    let quick = quick_column(f, file, q.text, i)->0;
    let v = decoded_numbers(c, f, file, q.num, i)->0;
    let src = numbers_of_column(c, q.num_kind, tail(ns, bm))->Ok_0->0;
    let (a, b) = local_range(lo, hi, start, rows);
    assert forall|k: int| 0 <= k < rows implies (a <= k < b) == has_at(
        (#[trigger] t.value(k))->0,
        prefix,
        0,
    ) by {
        assert((lo <= start + k < hi) == has_at(t.value(k)->0, prefix, 0));
    }
    assert(min2(t.count, rows) == rows);
    rows_apart(src, t, prefix, ns.take(bm), quick.nulls, v, low, high, a, b, rows, rows);
    assert(min2(b, rows) == b);
}

/// A row group, counted by way of the stretch with the prefix.
proof fn group_by_stretch<C: ColumnCodec>(
    c: C,
    f: V4Footer,
    file: Seq<u8>,
    num: int,
    text: int,
    low: F64,
    high: F64,
    lo: int,
    hi: int,
    i: int,
    before: int,
)
    requires
        f.wf(),
        0 <= i < f.row_groups@.len(),
        f.row_groups@[i].row_count > 0,
        group_full(f, file, num, i),
        sound_pair(c, f, file, num, text, i),
        count_out(c, f, file, num, (lo, hi), low, high, i) == Ok::<Option<int>, ScanError>(
            Some(before),
        ),
    ensures
        ({
            let rows = f.row_groups@[i].row_count as int;
            let v = decoded_numbers(c, f, file, num, i)->0;
            let (a, b) = local_range(lo, hi, rows_before(f.row_groups@, i), rows);
            count_out(c, f, file, num, (lo, hi), low, high, i + 1) == Ok::<Option<int>, ScanError>(
                Some(before + count_outside(v, low, high, a, b)),
            )
        }),
{
    reveal(sound_pair);
    group_bounds(f, i);
}

/// The numbers out of the range up to a row group: in all rows, and in a stretch of them.
#[verifier::opaque]
spec fn outs<C: ColumnCodec>(
    c: C,
    f: V4Footer,
    file: Seq<u8>,
    num: int,
    low: F64,
    high: F64,
    lo: int,
    hi: int,
    k: int,
    counts: (int, int),
) -> bool {
    &&& count_out(c, f, file, num, (0, f.total_rows()), low, high, k) == Ok::<
        Option<int>,
        ScanError,
    >(Some(counts.0))
    &&& count_out(c, f, file, num, (lo, hi), low, high, k) == Ok::<Option<int>, ScanError>(
        Some(counts.1),
    )
}

/// A count that goes row by row takes in one more row group.
proof fn sum_next<C: ColumnCodec>(c: C, f: V4Footer, file: Seq<u8>, q: NotSeq, i: int, a: int, b: int)
    requires
        0 <= i,
        q.sum(c, f, file, i) == Ok::<int, ScanError>(a),
        q.group(c, f, file, i) == Ok::<int, ScanError>(b),
    ensures
        q.sum(c, f, file, i + 1) == Ok::<int, ScanError>(a + b),
{
}

/// The rows of a row group whose strings have the prefix are those in the stretch.
proof fn prefix_in_group<C: ColumnCodec>(
    c: C,
    f: V4Footer,
    file: Seq<u8>,
    num: int,
    text: int,
    prefix: Seq<u8>,
    lo: int,
    hi: int,
    i: int,
)
    requires
        f.wf(),
        0 <= i < f.row_groups@.len(),
        order_upto(f, file, text, f.row_groups@.len() as int) is Ascending,
        forall|j: int|
            0 <= j < f.row_groups@.len() && f.row_groups@[j].row_count > 0 ==> #[trigger] sound_pair(
                c,
                f,
                file,
                num,
                text,
                j,
            ),
        ({
            let all = texts_upto(f, file, text, f.row_groups@.len() as int);
            forall|j: int|
                0 <= j < all.len() ==> (lo <= j < hi) == has_at(#[trigger] all[j], prefix, 0)
        }),
    ensures
        forall|r: int|
            0 <= r < f.row_groups@[i].row_count ==> (lo <= rows_before(f.row_groups@, i) + r < hi)
                == has_at(
                (#[trigger] sorted_text(f, file, text, true, i)->Ok_0->0.value(r))->0,
                prefix,
                0,
            ),
{
    let n = f.row_groups@.len() as int;
    let rows = f.row_groups@[i].row_count as int;
    let start = rows_before(f.row_groups@, i);
    let all = texts_upto(f, file, text, n);
    group_bounds(f, i);
    rows_before_monotonic(f.row_groups@, i + 1, n);
    assert forall|r: int| 0 <= r < rows implies (lo <= start + r < hi) == has_at(
        (#[trigger] sorted_text(f, file, text, true, i)->Ok_0->0.value(r))->0,
        prefix,
        0,
    ) by {
        texts_at(c, f, file, num, text, n, i, r);
        assert(all[start + r] == sorted_text(f, file, text, true, i)->Ok_0->0.value(r)->0);
    }
}

/// A row group with rows adds those of its numbers that are out of the range.
#[verifier::spinoff_prover]
proof fn outs_next<C: ColumnCodec>(
    c: C,
    f: V4Footer,
    file: Seq<u8>,
    num: int,
    text: int,
    low: F64,
    high: F64,
    lo: int,
    hi: int,
    i: int,
    counts: (int, int),
)
    requires
        f.wf(),
        0 <= i < f.row_groups@.len(),
        f.row_groups@[i].row_count > 0,
        group_full(f, file, num, i),
        sound_pair(c, f, file, num, text, i),
        outs(c, f, file, num, low, high, lo, hi, i, counts),
    ensures
        ({
            let rows = f.row_groups@[i].row_count as int;
            let v = decoded_numbers(c, f, file, num, i)->0;
            let (a, b) = local_range(lo, hi, rows_before(f.row_groups@, i), rows);
            outs(
                c,
                f,
                file,
                num,
                low,
                high,
                lo,
                hi,
                i + 1,
                (
                    counts.0 + count_outside(v, low, high, 0, rows),
                    counts.1 + count_outside(v, low, high, a, b),
                ),
            )
        }),
{
    reveal(outs);
    group_bounds(f, i);
    rows_before_monotonic(f.row_groups@, i + 1, f.row_groups@.len() as int);
    rows_before_monotonic(f.row_groups@, 0, i);
    let rows = f.row_groups@[i].row_count as int;
    assert(local_range(0, f.total_rows(), rows_before(f.row_groups@, i), rows) == (0int, rows));
    group_by_stretch(c, f, file, num, text, low, high, 0, f.total_rows(), i, counts.0);
    group_by_stretch(c, f, file, num, text, low, high, lo, hi, i, counts.1);
}

/// A row group without rows adds nothing.
proof fn outs_empty<C: ColumnCodec>(
    c: C,
    f: V4Footer,
    file: Seq<u8>,
    num: int,
    low: F64,
    high: F64,
    lo: int,
    hi: int,
    i: int,
    counts: (int, int),
)
    requires
        0 <= i < f.row_groups@.len(),
        f.row_groups@[i].row_count == 0,
        outs(c, f, file, num, low, high, lo, hi, i, counts),
    ensures
        outs(c, f, file, num, low, high, lo, hi, i + 1, counts),
{
    reveal(outs);
}

/// What both counts need.
#[verifier::opaque]
spec fn countable<C: ColumnCodec>(
    c: C,
    f: V4Footer,
    file: Seq<u8>,
    q: NotSeq,
    low: F64,
    high: F64,
    prefix: Seq<u8>,
    lo: int,
    hi: int,
) -> bool {
    let n = f.row_groups@.len() as int;
    let all = texts_upto(f, file, q.text, n);
    &&& q.num_kind == f.schema.kind(q.num)
    &&& q.text_kind is String
    &&& q.test == range_test(low, high)
    &&& q.like == StrTestSeq::Like(LikeShape::Prefix(prefix))
    &&& all_quick(f, file, q.num)
    &&& all_quick(f, file, q.text)
    &&& no_gaps(f, file, q.num)
    &&& undeleted(f)
    &&& order_upto(f, file, q.text, n) is Ascending
    &&& forall|i: int|
        0 <= i < n && f.row_groups@[i].row_count > 0 ==> #[trigger] sound_pair(
            c,
            f,
            file,
            q.num,
            q.text,
            i,
        )
    &&& forall|i: int|
        0 <= i < n && (#[trigger] f.row_groups@[i]).row_count == 0 ==> q.group(c, f, file, i) is Ok
    &&& forall|i: int| 0 <= i < all.len() ==> (lo <= i < hi) == has_at(#[trigger] all[i], prefix, 0)
}

/// What a row group with rows adds, row by row.
#[verifier::spinoff_prover]
proof fn filled_group<C: ColumnCodec>(
    c: C,
    f: V4Footer,
    file: Seq<u8>,
    q: NotSeq,
    low: F64,
    high: F64,
    prefix: Seq<u8>,
    lo: int,
    hi: int,
    i: int,
)
    requires
        f.wf(),
        0 <= i < f.row_groups@.len(),
        f.row_groups@[i].row_count > 0,
        countable(c, f, file, q, low, high, prefix, lo, hi),
    ensures
        group_full(f, file, q.num, i),
        sound_pair(c, f, file, q.num, q.text, i),
        ({
            let rows = f.row_groups@[i].row_count as int;
            let v = decoded_numbers(c, f, file, q.num, i)->0;
            let (a, b) = local_range(lo, hi, rows_before(f.row_groups@, i), rows);
            q.group(c, f, file, i) == Ok::<int, ScanError>(
                count_outside(v, low, high, 0, rows) - count_outside(v, low, high, a, b),
            )
        }),
{
    reveal(countable);
    assert(quick_group(f, file, q.num, i));
    assert(quick_group(f, file, q.text, i));
    assert(group_full(f, file, q.num, i));
    assert(sound_pair(c, f, file, q.num, q.text, i));
    assert(f.row_groups@[i].deletion_count == 0);
    prefix_in_group(c, f, file, q.num, q.text, prefix, lo, hi, i);
    group_by_row(c, f, file, q, low, high, prefix, lo, hi, i);
}

/// The count up to a row group, row by row and by way of the stretch with the prefix.
#[verifier::spinoff_prover]
proof fn counts_agree<C: ColumnCodec>(
    c: C,
    f: V4Footer,
    file: Seq<u8>,
    q: NotSeq,
    low: F64,
    high: F64,
    prefix: Seq<u8>,
    lo: int,
    hi: int,
    k: int,
) -> (counts: (int, int))
    requires
        f.wf(),
        0 <= k <= f.row_groups@.len(),
        countable(c, f, file, q, low, high, prefix, lo, hi),
    ensures
        outs(c, f, file, q.num, low, high, lo, hi, k, counts),
        q.sum(c, f, file, k) == Ok::<int, ScanError>(counts.0 - counts.1),
    decreases k,
{
    if k == 0 {
        reveal(outs);
        (0, 0)
    } else {
        let i = k - 1;
        let counts = counts_agree(c, f, file, q, low, high, prefix, lo, hi, i);
        if f.row_groups@[i].row_count > 0 {
            filled_group(c, f, file, q, low, high, prefix, lo, hi, i);
            outs_next(c, f, file, q.num, q.text, low, high, lo, hi, i, counts);
            let rows = f.row_groups@[i].row_count as int;
            let v = decoded_numbers(c, f, file, q.num, i)->0;
            let (a, b) = local_range(lo, hi, rows_before(f.row_groups@, i), rows);
            let x = count_outside(v, low, high, 0, rows);
            let y = count_outside(v, low, high, a, b);
            sum_next(c, f, file, q, i, counts.0 - counts.1, x - y);
            (counts.0 + x, counts.1 + y)
        } else {
            outs_empty(c, f, file, q.num, low, high, lo, hi, i, counts);
            assert(q.group(c, f, file, i) == Ok::<int, ScanError>(0)) by {
                reveal(countable);
                empty_group(c, f, file, q, i);
            }
            sum_next(c, f, file, q, i, counts.0 - counts.1, 0);
            counts
        }
    }
}

/// A row group without rows counts nothing.
proof fn empty_group<C: ColumnCodec>(c: C, f: V4Footer, file: Seq<u8>, q: NotSeq, i: int)
    requires
        0 <= i < f.row_groups@.len(),
        f.row_groups@[i].row_count == 0,
        q.text_kind is String,
        q.group(c, f, file, i) is Ok,
    ensures
        q.group(c, f, file, i) == Ok::<int, ScanError>(0),
{
}

impl<C: ColumnCodec> OnDemandStorage<C> {
    /// The count that goes row by row.
    pub open spec fn not_query(self, num: int, low: F64, high: F64, text: int, prefix: Seq<u8>) -> NotSeq {
        let f = self.footer->0;
        NotSeq {
            num,
            num_kind: f.schema.kind(num),
            text,
            text_kind: f.schema.kind(text),
            test: range_test(low, high),
            like: StrTestSeq::Like(LikeShape::Prefix(prefix)),
        }
    }

    /// Whether each row group has a number and a string for each of its rows, and those without rows can
    /// be read.
    pub open spec fn sound_pairs(
        self,
        num: int,
        low: F64,
        high: F64,
        text: int,
        prefix: Seq<u8>,
    ) -> bool {
        let f = self.footer->0;
        let file = self.file->0@;
        &&& forall|i: int|
            0 <= i < f.row_groups@.len() && f.row_groups@[i].row_count > 0
                ==> #[trigger] sound_pair(self.codec, f, file, num, text, i)
        &&& forall|i: int|
            0 <= i < f.row_groups@.len() && (#[trigger] f.row_groups@[i]).row_count == 0
                ==> self.not_query(num, low, high, text, prefix).group(
                self.codec,
                f,
                file,
                i,
            ) is Ok
    }

    /// Where the strings of a column are in order and nothing is missing or deleted, counting by way of
    /// that order gives what counting row by row gives. Each row group has a number and a string for
    /// each of its rows, and those without rows can be read.
    pub proof fn law_count_by_order(
        self,
        num: int,
        low: F64,
        high: F64,
        text: int,
        prefix: Seq<u8>,
    )
        requires
            self.wf(),
            self.footer is Some,
            self.file is Some,
            self.column_sorted(text) == Ok::<bool, ScanError>(true),
            ({
                let f = self.footer->0;
                let file = self.file->0@;
                &&& f.schema.kind(text) is String
                &&& all_quick(f, file, num)
                &&& all_quick(f, file, text)
                &&& no_gaps(f, file, num)
                &&& undeleted(f)
                &&& self.sound_pairs(num, low, high, text, prefix)
            }),
        ensures
            self.not_query(num, low, high, text, prefix).sum(
                self.codec,
                self.footer->0,
                self.file->0@,
                self.footer->0.row_groups@.len() as int,
            ) matches Ok(k) && self.not_count_sorted(
                num,
                low,
                high,
                text,
                LikeShape::Prefix(prefix),
            ) == Ok::<Option<int>, ScanError>(Some(k)),
    {
        let f = self.footer->0;
        let file = self.file->0@;
        let n = f.row_groups@.len() as int;
        let q = self.not_query(num, low, high, text, prefix);
        law_prefix_range(self, text, prefix);
        let (lo, hi) = self.prefix_range(text, prefix)->Ok_0->0;
        let all = texts_upto(f, file, text, n);
        texts_fill(self.codec, f, file, num, text, n);
        law_lower_bound(f, file, text, prefix);
        if let Some(end) = after_prefix(prefix) {
            law_lower_bound(f, file, text, end);
            if hi < lo {
                law_prefix_bounds(prefix, prefix);
                assert(prefix.subrange(0, prefix.len() as int) =~= prefix);
                assert(lex_less(all[hi], prefix));
                lex_transitive(all[hi], prefix, end, 0);
            }
        }
        assert(countable(self.codec, f, file, q, low, high, prefix, lo, hi)) by {
            reveal(countable);
        }
        let _ = counts_agree(self.codec, f, file, q, low, high, prefix, lo, hi, n);
        reveal(outs);
    }

    /// Counting rows outside of a range that do not match a pattern gives what counting row by row gives,
    /// whether the strings are in order or not. Where they are, and nothing is missing or deleted, each
    /// row group has a number and a string for each of its rows, and those without rows can be read.
    pub proof fn law_not_count_is_by_row(
        self,
        num_col: Seq<char>,
        low: F64,
        high: F64,
        str_col: Seq<char>,
        pattern: Seq<char>,
        num: usize,
        text: usize,
        like: LikeShape,
    )
        requires
            self.wf(),
            self.footer is Some,
            self.file is Some,
            shape_of(pattern) == Some(like),
            self.footer->0.schema.index_of(num_col) == Some(num),
            self.footer->0.schema.index_of(str_col) == Some(text),
            ({
                let f = self.footer->0;
                let file = self.file->0@;
                &&& is_int(f.schema.kind(num as int)) || is_float(f.schema.kind(num as int))
                &&& is_text(f.schema.kind(text as int))
                &&& all_quick(f, file, num as int)
                &&& all_quick(f, file, text as int)
                &&& like is Prefix && undeleted(f) && no_gaps(f, file, num as int)
                    && self.column_sorted(text as int) == Ok::<bool, ScanError>(true)
                    ==> self.sound_pairs(num as int, low, high, text as int, like->Prefix_0)
            }),
        ensures
            ({
                let f = self.footer->0;
                let q = NotSeq {
                    num: num as int,
                    num_kind: f.schema.kind(num as int),
                    text: text as int,
                    text_kind: f.schema.kind(text as int),
                    test: range_test(low, high),
                    like: StrTestSeq::Like(like),
                };
                self.not_count(num_col, low, high, str_col, pattern) == (match q.sum(
                    self.codec,
                    f,
                    self.file->0@,
                    f.row_groups@.len() as int,
                ) {
                    Err(e) => Err::<Option<int>, ScanError>(e),
                    Ok(k) => Ok(Some(k)),
                })
            }),
    {
        let f = self.footer->0;
        let file = self.file->0@;
        if f.schema.kind(text as int) is String && undeleted(f) && no_gaps(f, file, num as int)
            && self.column_sorted(text as int) == Ok::<bool, ScanError>(true) {
            if let LikeShape::Prefix(prefix) = like {
                self.law_count_by_order(num as int, low, high, text as int, prefix);
            }
        }
    }
}

} // verus!
