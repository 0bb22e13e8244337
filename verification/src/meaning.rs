//! What a table holds, row by row, read straight from the bytes of its file: which rows are deleted,
//! which have no value in a column, and what their values are. The laws about scans, aggregates and
//! updates are stated over these.

use vstd::prelude::*;

use crate::bytes::{i64_le, packed_value, u32_le, u64_le};
use crate::codec::ColumnCodec;
use crate::column::ColumnSeq;
use crate::double::{at_least, at_most, bits_of_i64, is_nan, le, F64};
use crate::group::{group_of, walk};
use crate::model::{
    is_int, rows_before, rows_before_monotonic, V4Footer, COL_ENCODING_BITPACK,
    COL_ENCODING_PLAIN, RG_COMPRESS_NONE, RG_IDS_IMPLICIT_CONTIGUOUS,
};
use crate::range_laws::{lies_in, walked_to};

verus! {

/// A number of a column.
pub enum Number {
    Int(int),
    Real(F64),
}

/// Whether mark `r` of the bitmap that starts at byte `from` is set.
pub open spec fn flag(s: Seq<u8>, from: int, r: int) -> bool {
    (s[from + r / 8] >> ((r % 8) as u8)) & 1u8 == 1u8
}

/// The bytes that the marks of some rows take.
pub open spec fn marks_len(rows: int) -> int {
    (rows + 7) / 8
}

/// The bytes that the identifiers of row group `i` take: none where they are counted up from the
/// first.
pub open spec fn ids_len<C: ColumnCodec>(c: C, f: V4Footer, file: Seq<u8>, i: int) -> int {
    if group_of(c, f.row_groups@[i], file)->Ok_0.ids == RG_IDS_IMPLICIT_CONTIGUOUS {
        0
    } else {
        8 * f.row_groups@[i].row_count
    }
}

/// Whether row `r` of row group `i` is deleted.
pub open spec fn deleted_at<C: ColumnCodec>(c: C, f: V4Footer, file: Seq<u8>, i: int, r: int) -> bool {
    f.row_groups@[i].deletion_count > 0 && flag(
        group_of(c, f.row_groups@[i], file)->Ok_0.body,
        ids_len(c, f, file, i),
        r,
    )
}

/// Where a column of row group `i` starts in the body.
pub open spec fn place_of<C: ColumnCodec>(c: C, f: V4Footer, file: Seq<u8>, col: int, i: int) -> int {
    let meta = f.row_groups@[i];
    walked_to(c, f.schema, group_of(c, meta, file)->Ok_0, meta.row_count as int, col)->Ok_0->0
}

/// Whether row `r` of row group `i` has no value in a column.
pub open spec fn missing_at<C: ColumnCodec>(
    c: C,
    f: V4Footer,
    file: Seq<u8>,
    col: int,
    i: int,
    r: int,
) -> bool {
    flag(group_of(c, f.row_groups@[i], file)->Ok_0.body, place_of(c, f, file, col, i), r)
}

/// Where the data of a column of row group `i` start: behind the null bitmap and, from version 1 on,
/// the encoding.
pub open spec fn data_at<C: ColumnCodec>(c: C, f: V4Footer, file: Seq<u8>, col: int, i: int) -> int {
    let behind = place_of(c, f, file, col, i) + marks_len(f.row_groups@[i].row_count as int);
    if group_of(c, f.row_groups@[i], file)->Ok_0.version >= 1 {
        behind + 1
    } else {
        behind
    }
}

/// Whether a column of row group `i` is stored as it is.
pub open spec fn is_plain<C: ColumnCodec>(c: C, f: V4Footer, file: Seq<u8>, col: int, i: int) -> bool {
    let g = group_of(c, f.row_groups@[i], file)->Ok_0;
    g.version < 1 || g.body[place_of(c, f, file, col, i) + marks_len(
        f.row_groups@[i].row_count as int,
    )] == COL_ENCODING_PLAIN
}

/// What decoding a column of row group `i` gives.
pub open spec fn decoded_at<C: ColumnCodec>(c: C, f: V4Footer, file: Seq<u8>, col: int, i: int) -> Option<
    (ColumnSeq, nat),
> {
    let g = group_of(c, f.row_groups@[i], file)->Ok_0;
    let behind = place_of(c, f, file, col, i) + marks_len(f.row_groups@[i].row_count as int);
    c.decoded(g.version >= 1, g.body.subrange(behind, g.body.len() as int), f.schema.kind(col))
}

/// The double in the eight bytes from byte `o` on.
pub open spec fn double_at(s: Seq<u8>, o: int) -> F64 {
    F64 { bits: u64_le(s, o) as u64 }
}

/// The number in row `r` of row group `i`: in a plain column, a word behind the count and the words of
/// the rows before it; in another one, what decoding gives.
pub open spec fn number_at<C: ColumnCodec>(
    c: C,
    f: V4Footer,
    file: Seq<u8>,
    col: int,
    i: int,
    r: int,
) -> Number {
    let body = group_of(c, f.row_groups@[i], file)->Ok_0.body;
    let at = data_at(c, f, file, col, i);
    if is_plain(c, f, file, col, i) {
        if is_int(f.schema.kind(col)) {
            Number::Int(i64_le(body, at + 8 + 8 * r))
        } else {
            Number::Real(double_at(body, at + 8 + 8 * r))
        }
    } else {
        match decoded_at(c, f, file, col, i) {
            Some((ColumnSeq::Int64(v), _)) => Number::Int(v[r] as int),
            Some((ColumnSeq::Float64(v), _)) => Number::Real(v[r]),
            _ => Number::Int(0),
        }
    }
}

/// The row group that holds a row of the table.
pub open spec fn holder(f: V4Footer, row: int) -> int {
    choose|i: int| lies_in(f, i, row)
}

/// The place of a row of the table in its row group.
pub open spec fn place_in(f: V4Footer, row: int) -> int {
    row - rows_before(f.row_groups@, holder(f, row))
}

/// Whether a row of the table is deleted.
pub open spec fn row_deleted<C: ColumnCodec>(c: C, f: V4Footer, file: Seq<u8>, row: int) -> bool {
    deleted_at(c, f, file, holder(f, row), place_in(f, row))
}

/// Whether a row of the table has no value in a column.
pub open spec fn row_missing<C: ColumnCodec>(
    c: C,
    f: V4Footer,
    file: Seq<u8>,
    col: int,
    row: int,
) -> bool {
    missing_at(c, f, file, col, holder(f, row), place_in(f, row))
}

/// The number of a row of the table.
pub open spec fn row_number<C: ColumnCodec>(
    c: C,
    f: V4Footer,
    file: Seq<u8>,
    col: int,
    row: int,
) -> Number {
    number_at(c, f, file, col, holder(f, row), place_in(f, row))
}

/// A row of the table lies in one row group.
pub proof fn law_holder(f: V4Footer, i: int, row: int)
    requires
        lies_in(f, i, row),
    ensures
        holder(f, row) == i,
        place_in(f, row) == row - rows_before(f.row_groups@, i),
{
    let j = holder(f, row);
    assert(lies_in(f, j, row));
    if i < j {
        rows_before_monotonic(f.row_groups@, i + 1, j);
    } else if j < i {
        rows_before_monotonic(f.row_groups@, j + 1, i);
    }
}

/// Each row of the first row groups lies in one of them.
pub(crate) proof fn some_holder(f: V4Footer, k: int, row: int)
    requires
        0 <= k <= f.row_groups@.len(),
        0 <= row < rows_before(f.row_groups@, k),
    ensures
        exists|i: int| 0 <= i < k && #[trigger] lies_in(f, i, row),
    decreases k,
{
    if k > 0 {
        if row < rows_before(f.row_groups@, k - 1) {
            some_holder(f, k - 1, row);
        } else {
            assert(lies_in(f, k - 1, row));
        }
    }
}

/// Each row of the table lies in a row group.
pub(crate) proof fn held(f: V4Footer, row: int)
    requires
        0 <= row < f.total_rows(),
    ensures
        0 <= holder(f, row) < f.row_groups@.len(),
        0 <= place_in(f, row) < f.row_groups@[holder(f, row)].row_count,
        rows_before(f.row_groups@, holder(f, row)) + place_in(f, row) == row,
{
    some_holder(f, f.row_groups@.len() as int, row);
    assert(lies_in(f, holder(f, row), row));
}

/// A number as a double: an integer is rounded to the nearest one.
pub open spec fn as_double(x: Number) -> F64 {
    match x {
        Number::Int(v) => F64 { bits: bits_of_i64(v) as u64 },
        Number::Real(v) => v,
    }
}

/// Whether a number is one; a double may be none.
pub open spec fn is_number(x: Number) -> bool {
    match x {
        Number::Int(_) => true,
        Number::Real(v) => !is_nan(v.bits),
    }
}

/// Whether a number lies between two bounds, compared as numbers are.
pub open spec fn between(low: F64, high: F64, x: Number) -> bool {
    match x {
        Number::Int(v) => at_most(low, v) && at_least(high, v),
        Number::Real(v) => le(low, v) && le(v, high),
    }
}

/// Whether a number is one of some integers; a double stands for the integer that it is cut to.
pub open spec fn is_one_of(values: Seq<i64>, x: Number) -> bool {
    exists|k: int|
        0 <= k < values.len() && (#[trigger] values[k]) as int == (match x {
            Number::Int(v) => v,
            Number::Real(v) => crate::double::trunc_i64(v),
        })
}

/// Whether rows are the rows below `n` of a kind: all of them, no others, each once, in order.
pub open spec fn lists(v: Seq<usize>, n: int, kind: spec_fn(int) -> bool) -> bool {
    &&& forall|k: int| 0 <= k < v.len() ==> (#[trigger] v[k]) < n && kind(v[k] as int)
    &&& forall|j: int, k: int| 0 <= j < k < v.len() ==> #[trigger] v[j] < #[trigger] v[k]
    &&& forall|x: int| 0 <= x < n && #[trigger] kind(x) ==> v.contains(x as usize)
}

/// Whether row group `i` can be read and has its identifiers and its deletion bitmap.
pub open spec fn whole_group<C: ColumnCodec>(c: C, f: V4Footer, file: Seq<u8>, i: int) -> bool {
    &&& group_of(c, f.row_groups@[i], file) is Ok
    &&& ids_len(c, f, file, i) + marks_len(f.row_groups@[i].row_count as int) <= group_of(
        c,
        f.row_groups@[i],
        file,
    )->Ok_0.body.len()
}

/// Whether a column of row group `i` stands where its place is on record, if it is, behind the columns
/// before it, with its null bitmap and more behind it; and the columns behind it can be passed over.
pub open spec fn whole_column<C: ColumnCodec>(c: C, f: V4Footer, file: Seq<u8>, col: int, i: int) -> bool {
    let meta = f.row_groups@[i];
    let rows = meta.row_count as int;
    let g = group_of(c, meta, file)->Ok_0;
    let p = place_of(c, f, file, col, i);
    &&& whole_group(c, f, file, i)
    &&& walked_to(c, f.schema, g, rows, col) matches Ok(Some(_))
    &&& walk(
        c,
        f.schema,
        g.version >= 1,
        g.body,
        marks_len(rows),
        col,
        p,
        f.schema.columns@.len() as int,
    ) is Ok
    &&& g.flag == RG_COMPRESS_NONE && f.rcix(i, col) is Some ==> f.rcix(i, col) == Some(p)
    &&& 0 <= p
    &&& p + marks_len(rows) < g.body.len()
}

/// Whether the packed fields from byte `at` on, where they can be read, hold some integers: a count, a
/// width, the smallest integer, then the fields.
pub open spec fn fields_hold(s: Seq<u8>, at: int, v: Seq<i64>) -> bool {
    let width = s[at + 8] as int;
    let end = at + 17 + (v.len() * width + 7) / 8;
    &&& at + 17 <= s.len()
    &&& u64_le(s, at) == v.len()
    &&& width < 64 && end <= s.len() ==> forall|j: int|
        0 <= j < v.len() ==> #[trigger] packed_value(
            s.subrange(at + 17, end),
            width,
            i64_le(s, at + 9),
            j,
        ) == Some(v[j])
}

/// Whether a column of row group `i` holds a number for each row, stored as it is or so that decoding,
/// and reading packed fields, gives them.
pub open spec fn whole_numbers<C: ColumnCodec>(
    c: C,
    f: V4Footer,
    file: Seq<u8>,
    col: int,
    i: int,
) -> bool {
    let rows = f.row_groups@[i].row_count as int;
    let g = group_of(c, f.row_groups@[i], file)->Ok_0;
    let at = data_at(c, f, file, col, i);
    &&& whole_column(c, f, file, col, i)
    &&& if is_plain(c, f, file, col, i) {
        &&& at + 8 + 8 * rows <= g.body.len()
        &&& u64_le(g.body, at) == rows
    } else {
        match decoded_at(c, f, file, col, i) {
            Some((ColumnSeq::Int64(v), _)) => {
                &&& is_int(f.schema.kind(col))
                &&& v.len() == rows
                &&& g.version >= 1 && g.body[at - 1] == COL_ENCODING_BITPACK ==> fields_hold(
                    g.body,
                    at,
                    v,
                )
            },
            Some((ColumnSeq::Float64(v), _)) => {
                &&& !is_int(f.schema.kind(col))
                &&& v.len() == rows
            },
            _ => false,
        }
    }
}

/// Whether the bounds of the zone map of row group `i`, if it has one, hold for the numbers of its
/// rows that are neither deleted nor missing. What is no number lies within any bounds.
pub open spec fn bounds_hold<C: ColumnCodec>(c: C, f: V4Footer, file: Seq<u8>, col: int, i: int) -> bool {
    f.zone(i, col, false) matches Some(z) ==> forall|r: int|
        0 <= r < f.row_groups@[i].row_count && !deleted_at(c, f, file, i, r) && !missing_at(
            c,
            f,
            file,
            col,
            i,
            r,
        ) ==> match #[trigger] number_at(c, f, file, col, i, r) {
            Number::Int(v) => !z.is_float && z.min_bits <= v <= z.max_bits,
            Number::Real(v) => z.is_float && (is_nan(v.bits) || (le(z.low(), v) && le(
                v,
                z.high(),
            ))),
        }
}

/// String `r` of a plain string column from byte `at` on: behind a count, one offset more than that and
/// the length of the data, the bytes between two offsets.
pub open spec fn plain_string(s: Seq<u8>, at: int, r: int) -> Seq<u8> {
    let data = at + 8 + 4 * (u64_le(s, at) + 1) + 8;
    s.subrange(data + u32_le(s, at + 8 + 4 * r), data + u32_le(s, at + 8 + 4 * (r + 1)))
}

/// Whether a plain string column from byte `at` on holds a string for each of some rows.
pub open spec fn whole_strings(s: Seq<u8>, at: int, rows: int) -> bool {
    let data = at + 8 + 4 * (rows + 1) + 8;
    &&& 0 <= at
    &&& data <= s.len()
    &&& u64_le(s, at) == rows
    &&& data + u64_le(s, data - 8) <= s.len()
    &&& forall|r: int|
        #![trigger plain_string(s, at, r)]
        0 <= r < rows ==> u32_le(s, at + 8 + 4 * r) <= u32_le(s, at + 8 + 4 * (r + 1)) <= u64_le(
            s,
            data - 8,
        )
}

/// The place of row `r` in the values of a dictionary column from byte `at` on: 0 where it has none,
/// `k` for the `k`-th value. The indices stand behind the number of rows and the number of values.
pub open spec fn dict_index(s: Seq<u8>, at: int, r: int) -> int {
    u32_le(s, at + 16 + 4 * r) as int
}

/// Where value `k` of a dictionary column, counted from 0, starts in its data; behind the last one,
/// where the data end. The offsets stand behind the indices.
pub open spec fn dict_bound(s: Seq<u8>, at: int, k: int) -> int {
    let offsets = at + 16 + 4 * u64_le(s, at);
    let size = u64_le(s, at + 8) as int;
    if k < size {
        u32_le(s, offsets + 4 * k) as int
    } else {
        u64_le(s, offsets + 4 * size) as int
    }
}

/// Value `k` of a dictionary column, counted from 0. The data stand behind the offsets and their
/// length.
pub open spec fn dict_value(s: Seq<u8>, at: int, k: int) -> Seq<u8> {
    let data = at + 16 + 4 * u64_le(s, at) + 4 * u64_le(s, at + 8) + 8;
    s.subrange(data + dict_bound(s, at, k), data + dict_bound(s, at, k + 1))
}

/// Whether a dictionary column from byte `at` on holds an index for each of some rows and all of its
/// values.
pub open spec fn whole_dict(s: Seq<u8>, at: int, rows: int) -> bool {
    let size = u64_le(s, at + 8) as int;
    let data = at + 16 + 4 * rows + 4 * size + 8;
    &&& 0 <= at
    &&& data <= s.len()
    &&& u64_le(s, at) == rows
    &&& data + u64_le(s, data - 8) <= s.len()
    &&& forall|k: int|
        #![trigger dict_value(s, at, k)]
        0 <= k < size ==> dict_bound(s, at, k) <= dict_bound(s, at, k + 1) <= u64_le(s, data - 8)
    &&& forall|r: int| 0 <= r < rows ==> #[trigger] dict_index(s, at, r) <= size
}

/// Whether a dictionary column names each value once.
pub open spec fn names_once(s: Seq<u8>, at: int) -> bool {
    forall|a: int, b: int|
        0 <= a < b < u64_le(s, at + 8) ==> #[trigger] dict_value(s, at, a) != #[trigger] dict_value(
            s,
            at,
            b,
        )
}

/// The string in row `r` of row group `i`, as it is stored.
pub open spec fn string_at<C: ColumnCodec>(
    c: C,
    f: V4Footer,
    file: Seq<u8>,
    col: int,
    i: int,
    r: int,
) -> Option<Seq<u8>> {
    let body = group_of(c, f.row_groups@[i], file)->Ok_0.body;
    let at = data_at(c, f, file, col, i);
    if f.schema.kind(col) is StringDict {
        if dict_index(body, at, r) > 0 {
            Some(dict_value(body, at, dict_index(body, at, r) - 1))
        } else {
            None
        }
    } else {
        Some(plain_string(body, at, r))
    }
}

/// The string of a row of the table.
pub open spec fn row_string<C: ColumnCodec>(
    c: C,
    f: V4Footer,
    file: Seq<u8>,
    col: int,
    row: int,
) -> Option<Seq<u8>> {
    string_at(c, f, file, col, holder(f, row), place_in(f, row))
}

/// Whether a string column of row group `i` is stored as it is and holds a string, or an index, for
/// each row.
pub open spec fn whole_texts<C: ColumnCodec>(
    c: C,
    f: V4Footer,
    file: Seq<u8>,
    col: int,
    i: int,
) -> bool {
    let rows = f.row_groups@[i].row_count as int;
    let g = group_of(c, f.row_groups@[i], file)->Ok_0;
    let at = data_at(c, f, file, col, i);
    &&& whole_column(c, f, file, col, i)
    &&& is_plain(c, f, file, col, i)
    &&& if f.schema.kind(col) is StringDict {
        whole_dict(g.body, at, rows)
    } else {
        whole_strings(g.body, at, rows)
    }
}

} // verus!
