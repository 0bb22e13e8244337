//! Reading columns, and row groups that can be left out.

use vstd::prelude::*;

use crate::bytes::{bit, i64_le, u32_le, u64_le};
use crate::codec::ColumnCodec;
use crate::column::ColumnSeq;
use crate::column_ops::slice_of;
use crate::double::{is_nan, le, trunc_i64, F64};
use crate::fts::live_rows;
use crate::gather_laws::{offsets_fit, text_added};
use crate::meaning::lists;
use crate::model::{is_float, is_int, ColumnType, V4Footer, ZoneMap};
use crate::numeric::{f64_le, min2};
use crate::pick_laws::lists_step;
use crate::prune::{ruled_out, rules_out, stands, stands_real};
use crate::reads::{
    column_range, dict_parts, from_first, index_words, int_words, offset_words, real_words, rebased,
    variable_column, variable_range, ColumnIndexEntry,
};
use crate::scattered::{
    any_below, bottom_place, chunks, column_at, offsets_there, strings_at, top_place, words_at,
};

verus! {

/// Whether an operator compares: by order or by equality.
pub open spec fn compares(op: Seq<char>) -> bool {
    op == ">"@ || op == ">="@ || op == "<"@ || op == "<="@ || op == "="@ || op == "=="@
}

/// Whether no number between the bounds of a zone map stands in the relation `op` to a number. Bounds of
/// integers are held against its whole part.
pub open spec fn hopeless(z: ZoneMap, op: Seq<char>, v: F64) -> bool {
    if z.is_float {
        forall|x: F64| le(z.low(), x) && le(x, z.high()) ==> !#[trigger] stands_real(op, x, v)
    } else {
        forall|x: int|
            z.min_bits <= x <= z.max_bits ==> !#[trigger] stands(op, x, trunc_i64(v) as int)
    }
}

/// Whether a zone map has bounds that can be compared, the lower one first.
pub open spec fn bounded(z: ZoneMap) -> bool {
    if z.is_float {
        le(z.low(), z.high())
    } else {
        z.min_bits <= z.max_bits
    }
}

proof fn hopeless_is_ruled_out(z: ZoneMap, op: Seq<char>, v: F64)
    requires
        bounded(z),
        !is_nan(v.bits),
        compares(op),
    ensures
        rules_out(z, op, v) == hopeless(z, op, v),
{
    if z.is_float {
        let a = z.low();
        let b = z.high();
        if hopeless(z, op, v) {
            assert(le(a, a) && le(b, b));
            assert(!stands_real(op, a, v));
            assert(!stands_real(op, b, v));
            if le(a, v) && le(v, b) {
                assert(!stands_real(op, v, v));
            }
        }
    } else {
        let a = z.min_bits as int;
        let b = z.max_bits as int;
        let w = trunc_i64(v) as int;
        if hopeless(z, op, v) {
            assert(!stands(op, a, w));
            assert(!stands(op, b, w));
            if a <= w <= b {
                assert(!stands(op, w, w));
            }
        }
    }
}

proof fn pruned_are_listed(f: V4Footer, col: int, op: Seq<char>, v: F64, k: int)
    requires
        0 <= k <= usize::MAX,
        !is_nan(v.bits),
        compares(op),
        forall|i: int| 0 <= i < k ==> (#[trigger] f.zone(i, col, false) matches Some(z) ==> bounded(z)),
    ensures
        lists(
            ruled_out(f, col, op, v, k),
            k,
            |i: int| f.zone(i, col, false) matches Some(z) && hopeless(z, op, v),
        ),
    decreases k,
{
    if k > 0 {
        pruned_are_listed(f, col, op, v, k - 1);
        let kind = |i: int| f.zone(i, col, false) matches Some(z) && hopeless(z, op, v);
        if let Some(z) = f.zone(k - 1, col, false) {
            hopeless_is_ruled_out(z, op, v);
        }
        lists_step(ruled_out(f, col, op, v, k - 1), ruled_out(f, col, op, v, k), k - 1, kind);
    }
}

/// The row groups that a comparison lets be left out are those whose zone map holds no number that stands
/// in the relation to the one asked about: all of them, in order, and no others.
pub proof fn law_pruned_groups(f: V4Footer, col: int, op: Seq<char>, v: F64)
    requires
        f.zone_maps@.len() <= usize::MAX,
        !is_nan(v.bits),
        compares(op),
        forall|i: int|
            0 <= i < f.zone_maps@.len() ==> (#[trigger] f.zone(i, col, false) matches Some(z)
                ==> bounded(z)),
    ensures
        lists(
            ruled_out(f, col, op, v, f.zone_maps@.len() as int),
            f.zone_maps@.len() as int,
            |i: int| f.zone(i, col, false) matches Some(z) && hopeless(z, op, v),
        ),
{
    pruned_are_listed(f, col, op, v, f.zone_maps@.len() as int);
}

/// The live rows of a row group are those whose bit is clear: all of them, in order, and no others.
pub proof fn law_live_rows(deleted: Seq<u8>, n: int)
    requires
        0 <= n <= usize::MAX,
    ensures
        lists(live_rows(deleted, n), n, |r: int| !bit(deleted, r)),
    decreases n,
{
    if n > 0 {
        law_live_rows(deleted, n - 1);
        lists_step(
            live_rows(deleted, n - 1),
            live_rows(deleted, n),
            n - 1,
            |r: int| !bit(deleted, r),
        );
    }
}

proof fn word_of_part(file: Seq<u8>, at: int, len: int, k: int)
    requires
        0 <= at,
        0 <= k,
        at + len <= file.len(),
        k + 8 <= len,
    ensures
        i64_le(file.subrange(at, at + len), k) == i64_le(file, at + k),
        f64_le(file.subrange(at, at + len), k) == f64_le(file, at + k),
{
    let s = file.subrange(at, at + len);
    assert(forall|j: int| 0 <= j < len ==> s[j] == file[at + j]);
}

/// Reading a range of a column of numbers gives the double words behind the header of the column, from
/// the first row asked for on, one for each row. It fails just where the file does not have them.
pub proof fn law_numbers_of_range<C: ColumnCodec>(
    c: C,
    file: Seq<u8>,
    at: int,
    kind: ColumnType,
    start: int,
    count: int,
)
    requires
        is_int(kind) || is_float(kind),
        0 <= at,
        0 <= start,
        0 <= count,
    ensures
        column_range(c, file, at, kind, start, count) is Ok <==> at + 8 + (start + count) * 8
            <= file.len(),
        column_range(c, file, at, kind, start, count) matches Ok(col) ==> if is_int(kind) {
            col matches ColumnSeq::Int64(v) && v.len() == count && forall|k: int|
                0 <= k < count ==> #[trigger] v[k] == i64_le(file, at + 8 + (start + k) * 8)
        } else {
            col matches ColumnSeq::Float64(v) && v.len() == count && forall|k: int|
                0 <= k < count ==> #[trigger] v[k] == f64_le(file, at + 8 + (start + k) * 8)
        },
{
    let from = at + 8 + start * 8;
    if from + count * 8 <= file.len() {
        let w = file.subrange(from, from + count * 8);
        if is_int(kind) {
            let v = int_words(w, count);
            assert forall|k: int| 0 <= k < count implies #[trigger] v[k] == i64_le(
                file,
                at + 8 + (start + k) * 8,
            ) by {
                word_of_part(file, from, count * 8, k * 8);
            }
        } else {
            let v = real_words(w, count);
            assert forall|k: int| 0 <= k < count implies #[trigger] v[k] == f64_le(
                file,
                at + 8 + (start + k) * 8,
            ) by {
                word_of_part(file, from, count * 8, k * 8);
            }
        }
    }
}

/// Whether the file has the double words at some places from byte `at` on.
pub open spec fn words_there(file: Seq<u8>, at: int, rows: Seq<usize>) -> bool {
    forall|k: int| 0 <= k < rows.len() ==> at + (#[trigger] rows[k] + 1) * 8 <= file.len()
}

proof fn word_chunks(file: Seq<u8>, at: int, rows: Seq<usize>)
    requires
        0 <= at,
    ensures
        chunks(file, at, 8, rows) is Ok <==> words_there(file, at, rows),
        chunks(file, at, 8, rows) matches Ok(w) ==> w.len() == rows.len() * 8 && forall|k: int|
            0 <= k < rows.len() ==> #[trigger] w.subrange(k * 8, k * 8 + 8) == file.subrange(
                at + rows[k] * 8,
                at + rows[k] * 8 + 8,
            ),
    decreases rows.len(),
{
    if rows.len() > 0 {
        let d = rows.drop_last();
        let n = d.len() as int;
        word_chunks(file, at, d);
        assert(rows.last() == rows[n]);
        if words_there(file, at, rows) {
            assert forall|k: int| 0 <= k < d.len() implies at + (#[trigger] d[k] + 1) * 8
                <= file.len() by {
                assert(d[k] == rows[k]);
            }
            assert(at + (rows[n] + 1) * 8 <= file.len());
        } else if words_there(file, at, d) {
            let k = choose|k: int| 0 <= k < rows.len() && !(at + (#[trigger] rows[k] + 1) * 8 <= file.len());
            if k < n {
                assert(d[k] == rows[k]);
            }
        }
        if let Ok(w) = chunks(file, at, 8, rows) {
            let before = chunks(file, at, 8, d)->Ok_0;
            let last = file.subrange(at + rows[n] * 8, at + rows[n] * 8 + 8);
            assert(w == before + last);
            assert forall|k: int| 0 <= k < rows.len() implies #[trigger] w.subrange(
                k * 8,
                k * 8 + 8,
            ) == file.subrange(at + rows[k] * 8, at + rows[k] * 8 + 8) by {
                if k < n {
                    assert(d[k] == rows[k]);
                    assert(w.subrange(k * 8, k * 8 + 8) =~= before.subrange(k * 8, k * 8 + 8));
                } else {
                    assert(w.subrange(k * 8, k * 8 + 8) =~= last);
                }
            }
        }
    }
}

/// Reading a column of numbers at some places gives the double word of each of them, in the order of
/// the places. It fails just where the file does not have one.
pub proof fn law_numbers_at_places<C: ColumnCodec>(
    c: C,
    file: Seq<u8>,
    index: ColumnIndexEntry,
    kind: ColumnType,
    rows: Seq<usize>,
)
    requires
        is_int(kind) || is_float(kind),
    ensures
        column_at(c, file, index, kind, rows) is Ok <==> words_there(
            file,
            index.data_offset + 8,
            rows,
        ),
        column_at(c, file, index, kind, rows) matches Ok(col) ==> if is_int(kind) {
            col matches ColumnSeq::Int64(v) && v.len() == rows.len() && forall|k: int|
                0 <= k < rows.len() ==> #[trigger] v[k] == i64_le(
                    file,
                    index.data_offset + 8 + rows[k] * 8,
                )
        } else {
            col matches ColumnSeq::Float64(v) && v.len() == rows.len() && forall|k: int|
                0 <= k < rows.len() ==> #[trigger] v[k] == f64_le(
                    file,
                    index.data_offset + 8 + rows[k] * 8,
                )
        },
{
    let at = index.data_offset + 8;
    word_chunks(file, at, rows);
    if let Ok(w) = chunks(file, at, 8, rows) {
        let n = rows.len() as int;
        assert forall|k: int| 0 <= k < n implies i64_le(w, #[trigger] (k * 8)) == i64_le(
            file,
            at + rows[k] * 8,
        ) && f64_le(w, k * 8) == f64_le(file, at + rows[k] * 8) by {
            assert(at + (rows[k] + 1) * 8 <= file.len());
            word_of_part(w, k * 8, 8, 0);
            word_of_part(file, at + rows[k] * 8, 8, 0);
            assert(w.subrange(k * 8, k * 8 + 8) == file.subrange(
                at + rows[k] * 8,
                at + rows[k] * 8 + 8,
            ));
        }
        let ints = int_words(w, n);
        let reals = real_words(w, n);
        assert forall|k: int| 0 <= k < n implies #[trigger] ints[k] == i64_le(
            file,
            at + rows[k] * 8,
        ) by {
            assert(i64_le(w, k * 8) == i64_le(file, at + rows[k] * 8));
        }
        assert forall|k: int| 0 <= k < n implies #[trigger] reals[k] == f64_le(
            file,
            at + rows[k] * 8,
        ) by {
            assert(f64_le(w, k * 8) == f64_le(file, at + rows[k] * 8));
        }
    }
}

/// Where the data of a stored column of strings starts: behind the number of strings, one offset more
/// than that and the length of the data.
pub open spec fn strings_from(at: int, total: int) -> int {
    at + 8 + (total + 1) * 4 + 8
}

/// The offset of string `r` of a column that is stored from byte `at` on.
pub open spec fn string_offset(file: Seq<u8>, at: int, r: int) -> int {
    u32_le(file, at + 8 + r * 4) as int
}

/// String `r` of a column of strings that is stored from byte `at` on.
pub open spec fn stored_string(file: Seq<u8>, at: int, total: int, r: int) -> Seq<u8> {
    file.subrange(
        strings_from(at, total) + string_offset(file, at, r),
        strings_from(at, total) + string_offset(file, at, r + 1),
    )
}

/// Whether the file has a column of `total` strings from byte `at` on.
pub open spec fn strings_stored(file: Seq<u8>, at: int, total: int) -> bool {
    &&& 0 <= at
    &&& at + 8 <= file.len()
    &&& u64_le(file, at) == total
    &&& strings_from(at, total) + string_offset(file, at, total) <= file.len()
    &&& forall|a: int, b: int|
        0 <= a <= b <= total ==> #[trigger] string_offset(file, at, a) <= #[trigger] string_offset(
            file,
            at,
            b,
        )
}

/// Whether a column has strings or bytes in `n` rows, those of a function.
pub open spec fn holds_strings(col: ColumnSeq, kind: ColumnType, n: int, want: spec_fn(int) -> Seq<u8>) -> bool {
    match col {
        ColumnSeq::String { offsets, data } => kind is String && offsets.len() == n + 1 && forall|k: int|
            0 <= k < n ==> #[trigger] slice_of(offsets, data, k) == want(k),
        ColumnSeq::Binary { offsets, data } => !(kind is String) && offsets.len() == n + 1 && forall|
            k: int,
        |
            0 <= k < n ==> #[trigger] slice_of(offsets, data, k) == want(k),
        _ => false,
    }
}

proof fn small_word_of_part(file: Seq<u8>, at: int, len: int, k: int)
    requires
        0 <= at,
        0 <= k,
        at + len <= file.len(),
        k + 4 <= len,
    ensures
        u32_le(file.subrange(at, at + len), k) == u32_le(file, at + k),
{
    let s = file.subrange(at, at + len);
    assert(forall|j: int| 0 <= j < len ==> s[j] == file[at + j]);
}

proof fn long_word_of_part(file: Seq<u8>, at: int, len: int, k: int)
    requires
        0 <= at,
        0 <= k,
        at + len <= file.len(),
        k + 8 <= len,
    ensures
        u64_le(file.subrange(at, at + len), k) == u64_le(file, at + k),
{
    let s = file.subrange(at, at + len);
    assert(forall|j: int| 0 <= j < len ==> s[j] == file[at + j]);
}

/// The offsets around some rows, as they are read.
proof fn offsets_of_range(file: Seq<u8>, at: int, total: int, start: int, n: int)
    requires
        strings_stored(file, at, total),
        0 <= start,
        0 <= n,
        start + n <= total,
    ensures
        ({
            let first = at + 8 + start * 4;
            let offsets = offset_words(file.subrange(first, first + (n + 1) * 4), n + 1);
            &&& first + (n + 1) * 4 <= file.len()
            &&& offsets.len() == n + 1
            &&& forall|k: int|
                0 <= k <= n ==> #[trigger] offsets[k] == string_offset(file, at, start + k)
            &&& forall|a: int, b: int|
                0 <= a <= b <= n ==> #[trigger] offsets[a] <= #[trigger] offsets[b]
            &&& strings_from(at, total) + offsets[n] <= file.len()
        }),
{
    let first = at + 8 + start * 4;
    assert(string_offset(file, at, start + n) <= string_offset(file, at, total));
    let words = file.subrange(first, first + (n + 1) * 4);
    let offsets = offset_words(words, n + 1);
    assert forall|k: int| 0 <= k <= n implies #[trigger] offsets[k] == string_offset(
        file,
        at,
        start + k,
    ) by {
        small_word_of_part(file, first, (n + 1) * 4, k * 4);
    }
    assert forall|a: int, b: int| 0 <= a <= b <= n implies #[trigger] offsets[a]
        <= #[trigger] offsets[b] by {
        assert(string_offset(file, at, start + a) <= string_offset(file, at, start + b));
    }
}

/// A string between offsets that are counted from the first one.
proof fn slice_of_range(file: Seq<u8>, from: int, offsets: Seq<u64>, data: Seq<u8>, n: int, k: int)
    requires
        0 <= k < n,
        offsets.len() == n + 1,
        0 <= from,
        offsets[0] <= offsets[k] <= offsets[k + 1] <= offsets[n],
        from + offsets[n] <= file.len(),
        data == file.subrange(from + offsets[0], from + offsets[n]),
    ensures
        slice_of(rebased(offsets), data, k) == file.subrange(from + offsets[k], from + offsets[k + 1]),
{
    let moved = rebased(offsets);
    assert(moved[k] == offsets[k] - offsets[0]);
    assert(moved[k + 1] == offsets[k + 1] - offsets[0]);
    assert(slice_of(moved, data, k) =~= file.subrange(from + offsets[k], from + offsets[k + 1]));
}

/// What is read where a range of strings is there.
proof fn range_read(
    file: Seq<u8>,
    at: int,
    kind: ColumnType,
    total: int,
    start: int,
    count: int,
    n: int,
    offsets: Seq<u64>,
    data: Seq<u8>,
)
    requires
        strings_stored(file, at, total),
        0 <= start < total,
        n == min2(count, total - start),
        0 <= n,
        at + 8 + start * 4 + (n + 1) * 4 <= file.len(),
        offsets == offset_words(
            file.subrange(at + 8 + start * 4, at + 8 + start * 4 + (n + 1) * 4),
            n + 1,
        ),
        offsets[0] <= offsets[n],
        from_first(offsets),
        strings_from(at, total) + offsets[n] <= file.len(),
        data == file.subrange(
            strings_from(at, total) + offsets[0],
            strings_from(at, total) + offsets[n],
        ),
    ensures
        variable_range(file, at, kind, start, count) == variable_column(kind, rebased(offsets), data),
{
    long_word_of_part(file, at, 8, 0);
    if offsets[n] == offsets[0] {
        assert(data =~= Seq::<u8>::empty());
    }
}

/// Reading a range of a stored column of strings or bytes gives those of the rows from the first one asked
/// for on, as far as the column goes.
#[verifier::spinoff_prover]
pub proof fn law_strings_of_range<C: ColumnCodec>(
    c: C,
    file: Seq<u8>,
    at: int,
    kind: ColumnType,
    total: int,
    start: int,
    count: int,
)
    requires
        kind is String || kind is Binary || kind is Blob,
        strings_stored(file, at, total),
        0 <= start < total,
        0 <= count,
    ensures
        column_range(c, file, at, kind, start, count) matches Ok(col) && holds_strings(
            col,
            kind,
            if count < total - start {
                count
            } else {
                total - start
            },
            |k: int| stored_string(file, at, total, start + k),
        ),
{
    let n = min2(count, total - start);
    let first = at + 8 + start * 4;
    offsets_of_range(file, at, total, start, n);
    let from = strings_from(at, total);
    let offsets = offset_words(file.subrange(first, first + (n + 1) * 4), n + 1);
    assert(offsets[0] <= offsets[n]);
    let data = file.subrange(from + offsets[0], from + offsets[n]);
    assert(from_first(offsets)) by {
        assert forall|i: int| 0 <= i < offsets.len() implies offsets[0] <= #[trigger] offsets[i] by {
            assert(offsets[0] <= offsets[i]);
        }
    }
    range_read(file, at, kind, total, start, count, n, offsets, data);
    let moved = rebased(offsets);
    assert forall|k: int| 0 <= k < n implies #[trigger] slice_of(moved, data, k) == stored_string(
        file,
        at,
        total,
        start + k,
    ) by {
        assert(offsets[0] <= offsets[k]);
        assert(offsets[k] <= offsets[k + 1]);
        assert(offsets[k + 1] <= offsets[n]);
        slice_of_range(file, from, offsets, data, n, k);
        assert(offsets[k] == string_offset(file, at, start + k));
        assert(offsets[k + 1] == string_offset(file, at, start + (k + 1)));
    }
    assert(column_range(c, file, at, kind, start, count) == variable_range(
        file,
        at,
        kind,
        start,
        count,
    ));
}

proof fn strings_gathered(file: Seq<u8>, at: int, total: int, rows: Seq<usize>)
    requires
        strings_stored(file, at, total),
        rows.len() <= 0xffff_ffff,
    ensures
        strings_at(file, at, total, rows) matches Ok((offsets, data)) && offsets_fit(offsets, data)
            && offsets.len() == rows.len() + 1 && data.len() <= rows.len() * 0xffff_ffff && forall|
            k: int,
        |
            0 <= k < rows.len() ==> #[trigger] slice_of(offsets, data, k) == (if rows[k] < total {
                stored_string(file, at, total, rows[k] as int)
            } else {
                Seq::empty()
            }),
    decreases rows.len(),
{
    if rows.len() > 0 {
        let d = rows.drop_last();
        strings_gathered(file, at, total, d);
        let (o, v) = strings_at(file, at, total, d)->Ok_0;
        let last = rows[rows.len() - 1] as int;
        assert(rows.last() == last);
        let w = if last < total {
            stored_string(file, at, total, last)
        } else {
            Seq::empty()
        };
        if last < total {
            assert(string_offset(file, at, last) <= string_offset(file, at, last + 1));
            assert(string_offset(file, at, last + 1) <= string_offset(file, at, total));
        }
        text_added(o, v, w);
        assert(v + Seq::<u8>::empty() =~= v);
        if w.len() == 0 {
            assert(v + w =~= v);
        }
        let (o2, v2) = strings_at(file, at, total, rows)->Ok_0;
        assert(o2 == o.push((v.len() + w.len()) as u64) && v2 == v + w);
        assert forall|k: int| 0 <= k < rows.len() implies #[trigger] slice_of(o2, v2, k) == (if rows[k]
            < total {
            stored_string(file, at, total, rows[k] as int)
        } else {
            Seq::empty()
        }) by {
            if k < d.len() {
                assert(d[k] == rows[k]);
                assert(slice_of(o, v, k) == slice_of(o2, v2, k));
            }
        }
    }
}

/// Reading a stored column of strings or bytes at some places, one of them in the column, gives that of
/// each place in their order, and an empty one for a place beyond the column.
pub proof fn law_strings_at_places<C: ColumnCodec>(
    c: C,
    file: Seq<u8>,
    index: ColumnIndexEntry,
    kind: ColumnType,
    total: int,
    rows: Seq<usize>,
    some: int,
)
    requires
        kind is String || kind is Binary || kind is Blob,
        strings_stored(file, index.data_offset as int, total),
        rows.len() <= 0xffff_ffff,
        0 <= some < rows.len(),
        rows[some] < total,
    ensures
        column_at(c, file, index, kind, rows) matches Ok(col) && holds_strings(
            col,
            kind,
            rows.len() as int,
            |k: int|
                if rows[k] < total {
                    stored_string(file, index.data_offset as int, total, rows[k] as int)
                } else {
                    Seq::empty()
                },
        ),
{
    let at = index.data_offset as int;
    long_word_of_part(file, at, 8, 0);
    strings_gathered(file, at, total, rows);
    assert(any_below(rows, total));
    assert(offsets_there(file, at, total, rows));
    let (offsets, data) = strings_at(file, at, total, rows)->Ok_0;
    assert(column_at(c, file, index, kind, rows) == variable_column(kind, offsets, data));
}

/// Whether the file has a dictionary column of `total` rows and `size` values from byte `at` on.
pub open spec fn dict_stored(file: Seq<u8>, at: int, total: int, size: int) -> bool {
    let mid = at + 16 + total * 4 + size * 4;
    &&& 0 <= at
    &&& at + 16 <= file.len()
    &&& u64_le(file, at) == total
    &&& u64_le(file, at + 8) == size
    &&& mid + 8 <= file.len()
    &&& mid + 8 + u64_le(file, mid) <= file.len()
}

/// Whether a column has the dictionary that is stored from byte `at` on, and the indices of a function.
pub open spec fn holds_dict(
    col: ColumnSeq,
    file: Seq<u8>,
    at: int,
    total: int,
    size: int,
    n: int,
    want: spec_fn(int) -> int,
) -> bool {
    let mid = at + 16 + total * 4;
    let end = mid + size * 4 + 8;
    col matches ColumnSeq::StringDict { indices, dict_offsets, dict_data } && {
        &&& indices.len() == n
        &&& forall|k: int| 0 <= k < n ==> #[trigger] indices[k] == want(k)
        &&& dict_offsets.len() == size
        &&& forall|j: int| 0 <= j < size ==> #[trigger] dict_offsets[j] == u32_le(file, mid + j * 4)
        &&& dict_data == file.subrange(end, end + u64_le(file, mid + size * 4))
    }
}

proof fn dict_parts_read(file: Seq<u8>, at: int, total: int, size: int)
    requires
        dict_stored(file, at, total, size),
    ensures
        dict_parts(file, at, total, size) matches Ok((o, d)) && o.len() == size && (forall|j: int|
            0 <= j < size ==> #[trigger] o[j] == u32_le(file, at + 16 + total * 4 + j * 4)) && d
            == file.subrange(
            at + 16 + total * 4 + size * 4 + 8,
            at + 16 + total * 4 + size * 4 + 8 + u64_le(file, at + 16 + total * 4 + size * 4),
        ),
{
    let mid = at + 16 + total * 4;
    let words = file.subrange(mid, mid + size * 4);
    long_word_of_part(file, mid + size * 4, 8, 0);
    let o = offset_words(words, size);
    assert forall|j: int| 0 <= j < size implies #[trigger] o[j] == u32_le(file, mid + j * 4) by {
        small_word_of_part(file, mid, size * 4, j * 4);
    }
    let len = u64_le(file, mid + size * 4) as int;
    if len == 0 {
        assert(file.subrange(mid + size * 4 + 8, mid + size * 4 + 8 + len) =~= Seq::<u8>::empty());
    }
}

/// Reading a range of a stored dictionary column gives the indices of the rows from the first one asked
/// for on, as far as the column goes, with the dictionary.
pub proof fn law_indices_of_range<C: ColumnCodec>(
    c: C,
    file: Seq<u8>,
    at: int,
    total: int,
    size: int,
    start: int,
    count: int,
)
    requires
        dict_stored(file, at, total, size),
        0 <= start < total,
        0 <= count,
    ensures
        column_range(c, file, at, ColumnType::StringDict, start, count) matches Ok(col) && holds_dict(
            col,
            file,
            at,
            total,
            size,
            if count < total - start {
                count
            } else {
                total - start
            },
            |k: int| u32_le(file, at + 16 + (start + k) * 4) as int,
        ),
{
    let n = if count < total - start {
        count
    } else {
        total - start
    };
    long_word_of_part(file, at, 16, 0);
    long_word_of_part(file, at, 16, 8);
    dict_parts_read(file, at, total, size);
    let first = at + 16 + start * 4;
    let words = file.subrange(first, first + n * 4);
    let indices = index_words(words, n);
    assert forall|k: int| 0 <= k < n implies #[trigger] indices[k] == u32_le(
        file,
        at + 16 + (start + k) * 4,
    ) by {
        small_word_of_part(file, first, n * 4, k * 4);
    }
}

proof fn indices_gathered(file: Seq<u8>, at: int, total: int, rows: Seq<usize>)
    requires
        0 <= at,
        at + total * 4 <= file.len(),
    ensures
        words_at(file, at, total, rows) matches Ok(v) && v.len() == rows.len() && forall|k: int|
            0 <= k < rows.len() ==> #[trigger] v[k] == (if rows[k] < total {
                u32_le(file, at + rows[k] * 4) as int
            } else {
                0
            }),
    decreases rows.len(),
{
    if rows.len() > 0 {
        let d = rows.drop_last();
        indices_gathered(file, at, total, d);
        let before = words_at(file, at, total, d)->Ok_0;
        let last = rows[rows.len() - 1] as int;
        assert(rows.last() == last);
        if last < total {
            small_word_of_part(file, at + last * 4, 4, 0);
        }
        let v = words_at(file, at, total, rows)->Ok_0;
        assert forall|k: int| 0 <= k < rows.len() implies #[trigger] v[k] == (if rows[k] < total {
            u32_le(file, at + rows[k] * 4) as int
        } else {
            0
        }) by {
            if k < d.len() {
                assert(d[k] == rows[k]);
                assert(v[k] == before[k]);
            }
        }
    }
}

proof fn places_below(rows: Seq<usize>, total: int)
    requires
        rows.len() > 0,
        forall|k: int| 0 <= k < rows.len() ==> #[trigger] rows[k] < total,
    ensures
        0 <= bottom_place(rows) <= rows.last() <= top_place(rows) < total,
    decreases rows.len(),
{
    assert(rows.last() == rows[rows.len() - 1]);
    if rows.len() > 1 {
        let d = rows.drop_last();
        assert forall|k: int| 0 <= k < d.len() implies #[trigger] d[k] < total by {
            assert(rows[k] < total);
        }
        places_below(d, total);
    }
}

/// Reading a stored dictionary column at some places gives the index of each place in their order, 0 for
/// a place beyond the column, with the dictionary. No place lies beyond the column where there are many of
/// them, since the words between them can then be read as well.
pub proof fn law_indices_at_places<C: ColumnCodec>(
    c: C,
    file: Seq<u8>,
    index: ColumnIndexEntry,
    total: int,
    size: int,
    rows: Seq<usize>,
)
    requires
        dict_stored(file, index.data_offset as int, total, size),
        rows.len() > 0,
        rows.len() <= 256 || forall|k: int| 0 <= k < rows.len() ==> #[trigger] rows[k] < total,
    ensures
        column_at(c, file, index, ColumnType::StringDict, rows) matches Ok(col) && holds_dict(
            col,
            file,
            index.data_offset as int,
            total,
            size,
            rows.len() as int,
            |k: int|
                if rows[k] < total {
                    u32_le(file, index.data_offset + 16 + rows[k] * 4) as int
                } else {
                    0
                },
        ),
{
    let at = index.data_offset as int;
    long_word_of_part(file, at, 16, 0);
    long_word_of_part(file, at, 16, 8);
    dict_parts_read(file, at, total, size);
    indices_gathered(file, at + 16, total, rows);
    if rows.len() > 256 {
        places_below(rows, total);
    }
}

} // verus!
