//! The values that a batch gathers are those of its rows.

use vstd::prelude::*;

use crate::batch::{
    cut_of, cut_rows, first_of, gather_group, gather_placed, gather_upto, gather_walked,
    live_before_bound, marks_at, placed_part, placed_parts, served_by_first, span, walked_parts, Cut,
    GatherSeq, PartSeq,
};
use crate::batch_laws::{
    all_live, all_live_len, cut_is_part, group_live, group_live_bound, law_gathered_rows, sound_live,
};
use crate::bytes::{bit, bitmap_len};
use crate::codec::ColumnCodec;
use crate::column::ColumnSeq;
use crate::column_ops::{
    blank_like, empty_column, entry_of, gaps, joined, picked, rows_of_column, slice_of, sliced, spelled,
    with_bit, with_picked, with_row, with_rows,
};
use crate::column_scan::{collected_kind, column_read, found_from, walked_piece, wanted_of};
use crate::double::F64;
use crate::group::{group_of, id_section, stored_group, tail, window};
use crate::model::{rows_before, ColumnType, ScanError, V4Footer, RG_COMPRESS_NONE};
use crate::range_laws::lies_in;
use crate::scan_laws::group_bounds;

verus! {

/// A value that a column holds; lists are left out.
#[verifier::ext_equal]
pub enum Held {
    Int(i64),
    Real(F64),
    Text(Seq<u8>),
    Truth(bool),
    Bytes(Seq<u8>),
    List,
}

/// What sort of values a column holds.
pub enum Sort {
    Int,
    Real,
    Text,
    Truth,
    Bytes,
    List,
}

/// What sort of values a column holds.
pub open spec fn sort_of(col: ColumnSeq) -> Sort {
    match col {
        ColumnSeq::Int64(_) => Sort::Int,
        ColumnSeq::Float64(_) => Sort::Real,
        ColumnSeq::String { .. } => Sort::Text,
        ColumnSeq::StringDict { .. } => Sort::Text,
        ColumnSeq::Bool { .. } => Sort::Truth,
        ColumnSeq::Binary { .. } => Sort::Bytes,
        _ => Sort::List,
    }
}

/// What sort of values the columns of a kind are collected as.
pub open spec fn sort_of_kind(kind: ColumnType) -> Sort {
    sort_of(empty_column(collected_kind(kind)))
}

/// The value in row `r` of a column.
pub open spec fn held(col: ColumnSeq, r: int) -> Held {
    match col {
        ColumnSeq::Int64(v) => Held::Int(v[r]),
        ColumnSeq::Float64(v) => Held::Real(v[r]),
        ColumnSeq::String { offsets, data } => Held::Text(slice_of(offsets, data, r)),
        ColumnSeq::StringDict { indices, dict_offsets, dict_data } => Held::Text(
            entry_of(dict_offsets, dict_data, indices[r] as int),
        ),
        ColumnSeq::Bool { data, .. } => Held::Truth(bit(data, r)),
        ColumnSeq::Binary { offsets, data } => Held::Bytes(slice_of(offsets, data, r)),
        _ => Held::List,
    }
}

/// The values of a column, row by row.
pub open spec fn held_all<C: ColumnCodec>(c: C, col: ColumnSeq) -> Seq<Held> {
    Seq::new(rows_of_column(c, col) as nat, |r: int| held(col, r))
}

/// The bytes of a value that stand outside of its row.
pub open spec fn held_len(v: Held) -> int {
    match v {
        Held::Text(s) => s.len() as int,
        Held::Bytes(s) => s.len() as int,
        _ => 0,
    }
}

/// The bytes of the texts of a column.
pub open spec fn data_len(col: ColumnSeq) -> int {
    match col {
        ColumnSeq::String { data, .. } => data.len() as int,
        ColumnSeq::Binary { data, .. } => data.len() as int,
        _ => 0,
    }
}

/// Whether offsets lead through all of some data.
pub open spec fn offsets_fit(offsets: Seq<u64>, data: Seq<u8>) -> bool {
    &&& offsets.len() > 0
    &&& offsets.last() == data.len()
    &&& forall|a: int, b: int|
        0 <= a <= b < offsets.len() ==> #[trigger] offsets[a] <= #[trigger] offsets[b]
}

/// Whether a column is one that rows can be added to.
pub open spec fn kept(col: ColumnSeq) -> bool {
    match col {
        ColumnSeq::Int64(_) => true,
        ColumnSeq::Float64(_) => true,
        ColumnSeq::String { offsets, data } => offsets_fit(offsets, data),
        ColumnSeq::Binary { offsets, data } => offsets_fit(offsets, data),
        ColumnSeq::Bool { data, len } => {
            &&& data.len() == bitmap_len(len as int)
            &&& forall|i: int| i >= len ==> !#[trigger] bit(data, i)
        },
        _ => false,
    }
}

/// A bit that is added is the next one, and changes no other.
pub(crate) proof fn bit_added(data: Seq<u8>, len: int, b: bool)
    requires
        0 <= len,
        data.len() == bitmap_len(len),
        forall|i: int| i >= len ==> !#[trigger] bit(data, i),
    ensures
        with_bit(data, len, b).len() == bitmap_len(len + 1),
        bit(with_bit(data, len, b), len) == b,
        forall|i: int| 0 <= i < len ==> #[trigger] bit(with_bit(data, len, b), i) == bit(data, i),
        forall|i: int| i > len ==> !#[trigger] bit(with_bit(data, len, b), i),
{
    let now = with_bit(data, len, b);
    let k = len / 8;
    let m: u8 = (len % 8) as u8;
    assert forall|i: int| 0 <= i implies #[trigger] bit(now, i) == (if i == len {
        b
    } else {
        bit(data, i)
    }) by {
        let j: u8 = (i % 8) as u8;
        assert(!bit(data, len));
        assert(((1u8 << m) >> j) & 1u8 == (if m == j {
            1u8
        } else {
            0u8
        })) by (bit_vector)
            requires
                m < 8,
                j < 8,
        ;
        assert((0u8 >> j) & 1u8 == 0u8) by (bit_vector)
            requires
                j < 8,
        ;
        if k < data.len() {
            let x = data[k];
            assert(((x | (1u8 << m)) >> j) & 1u8 == (if m == j {
                1u8
            } else {
                (x >> j) & 1u8
            })) by (bit_vector)
                requires
                    m < 8,
                    j < 8,
            ;
        }
        if i / 8 == k {
            assert(i == len <==> m == j);
        }
    }
}

pub(crate) proof fn text_added(o: Seq<u64>, d: Seq<u8>, v: Seq<u8>)
    requires
        offsets_fit(o, d),
        d.len() + v.len() <= u64::MAX,
    ensures
        ({
            let o2 = o.push((d.len() + v.len()) as u64);
            let d2 = d + v;
            &&& offsets_fit(o2, d2)
            &&& gaps(o2) == gaps(o) + 1
            &&& forall|r: int|
                0 <= r < gaps(o) ==> #[trigger] slice_of(o2, d2, r) == slice_of(o, d, r)
            &&& slice_of(o2, d2, gaps(o)) == v
        }),
{
    let o2 = o.push((d.len() + v.len()) as u64);
    let d2 = d + v;
    let n = gaps(o);
    assert forall|a: int, b: int| 0 <= a <= b < o2.len() implies #[trigger] o2[a]
        <= #[trigger] o2[b] by {
        if b == n + 1 && a < b {
            assert(o[a] <= o[n]);
        }
    }
    assert forall|r: int| 0 <= r < n implies #[trigger] slice_of(o2, d2, r) == slice_of(
        o,
        d,
        r,
    ) by {
        assert(o[r] <= o[r + 1]);
        assert(o[r + 1] <= o[n]);
        assert(d2.subrange(o[r] as int, o[r + 1] as int) =~= d.subrange(
            o[r] as int,
            o[r + 1] as int,
        ));
    }
    assert(d2.subrange(d.len() as int, d2.len() as int) =~= v);
}

/// A row that is added holds the value of the row it was taken from, and changes no other.
pub(crate) proof fn row_held<C: ColumnCodec>(c: C, acc: ColumnSeq, col: ColumnSeq, i: int)
    requires
        kept(acc),
        sort_of(acc) == sort_of(col),
        0 <= i < rows_of_column(c, col),
        rows_of_column(c, acc) < usize::MAX,
        data_len(with_row(c, acc, col, i)) <= u64::MAX,
    ensures
        kept(with_row(c, acc, col, i)),
        sort_of(with_row(c, acc, col, i)) == sort_of(acc),
        held_all(c, with_row(c, acc, col, i)) == held_all(c, acc).push(held(col, i)),
{
    let now = with_row(c, acc, col, i);
    let want = held_all(c, acc).push(held(col, i));
    match acc {
        ColumnSeq::String { offsets, data } => {
            let v = match held(col, i) {
                Held::Text(v) => v,
                _ => Seq::empty(),
            };
            text_added(offsets, data, v);
        },
        ColumnSeq::Binary { offsets, data } => {
            let v = match held(col, i) {
                Held::Bytes(v) => v,
                _ => Seq::empty(),
            };
            text_added(offsets, data, v);
        },
        ColumnSeq::Bool { data, len } => {
            let b = match col {
                ColumnSeq::Bool { data: other, .. } => bit(other, i),
                _ => false,
            };
            bit_added(data, len as int, b);
        },
        _ => {},
    }
    assert(held_all(c, now) =~= want);
}

/// Adding a row takes no bytes away.
pub(crate) proof fn row_grows<C: ColumnCodec>(c: C, acc: ColumnSeq, col: ColumnSeq, i: int)
    ensures
        data_len(acc) <= data_len(with_row(c, acc, col, i)),
        sort_of(acc) == sort_of(col) && !(acc is StringDict) ==> data_len(with_row(c, acc, col, i))
            == data_len(acc) + held_len(held(col, i)),
{
}

/// Rows that are added hold the values of the rows they were taken from.
pub(crate) proof fn rows_held<C: ColumnCodec>(c: C, acc: ColumnSeq, col: ColumnSeq, x: int, y: int)
    requires
        kept(acc),
        sort_of(acc) == sort_of(col),
        0 <= x <= y <= rows_of_column(c, col),
        rows_of_column(c, acc) + y - x <= usize::MAX,
        data_len(with_rows(c, acc, col, x, y)) <= u64::MAX,
    ensures
        kept(with_rows(c, acc, col, x, y)),
        sort_of(with_rows(c, acc, col, x, y)) == sort_of(acc),
        held_all(c, with_rows(c, acc, col, x, y)) == held_all(c, acc) + held_all(c, col).subrange(
            x,
            y,
        ),
    decreases y - x,
{
    let all = held_all(c, col);
    if x < y {
        let before = with_rows(c, acc, col, x, y - 1);
        row_grows(c, before, col, y - 1);
        rows_held(c, acc, col, x, y - 1);
        assert(held_all(c, before).len() == rows_of_column(c, before));
        assert(held_all(c, acc).len() == rows_of_column(c, acc));
        row_held(c, before, col, y - 1);
        assert(held_all(c, acc) + all.subrange(x, y) =~= (held_all(c, acc) + all.subrange(
            x,
            y - 1,
        )).push(held(col, y - 1)));
    } else {
        assert(held_all(c, acc) + all.subrange(x, y) =~= held_all(c, acc));
    }
}

/// Rows that are picked hold the values of the rows at the places.
proof fn picks_held<C: ColumnCodec>(c: C, acc: ColumnSeq, col: ColumnSeq, places: Seq<usize>)
    requires
        kept(acc),
        sort_of(acc) == sort_of(col),
        forall|k: int| 0 <= k < places.len() ==> #[trigger] places[k] < rows_of_column(c, col),
        rows_of_column(c, acc) + places.len() <= usize::MAX,
        data_len(with_picked(c, acc, col, places)) <= u64::MAX,
    ensures
        kept(with_picked(c, acc, col, places)),
        sort_of(with_picked(c, acc, col, places)) == sort_of(acc),
        held_all(c, with_picked(c, acc, col, places)) == held_all(c, acc) + Seq::new(
            places.len(),
            |k: int| held(col, places[k] as int),
        ),
    decreases places.len(),
{
    let all = Seq::new(places.len(), |k: int| held(col, places[k] as int));
    if places.len() > 0 {
        let d = places.drop_last();
        let before = with_picked(c, acc, col, d);
        let last = places[places.len() - 1] as int;
        assert(last < rows_of_column(c, col));
        assert forall|k: int| 0 <= k < d.len() implies #[trigger] d[k] < rows_of_column(c, col) by {
            assert(places[k] < rows_of_column(c, col));
        }
        row_grows(c, before, col, last);
        picks_held(c, acc, col, d);
        assert(held_all(c, before).len() == rows_of_column(c, before));
        assert(held_all(c, acc).len() == rows_of_column(c, acc));
        row_held(c, before, col, last);
        let some = Seq::new(d.len(), |k: int| held(col, d[k] as int));
        assert(held_all(c, acc) + all =~= (held_all(c, acc) + some).push(held(col, last)));
    } else {
        assert(held_all(c, acc) + all =~= held_all(c, acc));
    }
}

/// Whether no value of a column takes more bytes than a 32-bit offset can count.
pub open spec fn short<C: ColumnCodec>(c: C, col: ColumnSeq) -> bool {
    forall|r: int|
        0 <= r < rows_of_column(c, col) ==> held_len(#[trigger] held(col, r)) <= 0xffff_ffff
}

proof fn rows_fit<C: ColumnCodec>(c: C, acc: ColumnSeq, col: ColumnSeq, x: int, y: int)
    requires
        sort_of(acc) == sort_of(col),
        !(acc is StringDict),
        short(c, col),
        0 <= x <= y <= rows_of_column(c, col),
    ensures
        data_len(with_rows(c, acc, col, x, y)) <= data_len(acc) + (y - x) * 0xffff_ffff,
        sort_of(with_rows(c, acc, col, x, y)) == sort_of(acc),
        !(with_rows(c, acc, col, x, y) is StringDict),
    decreases y - x,
{
    if x < y {
        rows_fit(c, acc, col, x, y - 1);
        row_grows(c, with_rows(c, acc, col, x, y - 1), col, y - 1);
        assert(held_len(held(col, y - 1)) <= 0xffff_ffff);
    }
}

pub(crate) proof fn picks_fit<C: ColumnCodec>(c: C, acc: ColumnSeq, col: ColumnSeq, places: Seq<usize>)
    requires
        sort_of(acc) == sort_of(col),
        !(acc is StringDict),
        short(c, col),
    ensures
        data_len(with_picked(c, acc, col, places)) <= data_len(acc) + places.len() * 0xffff_ffff,
        sort_of(with_picked(c, acc, col, places)) == sort_of(acc),
        !(with_picked(c, acc, col, places) is StringDict),
    decreases places.len(),
{
    if places.len() > 0 {
        let d = places.drop_last();
        picks_fit(c, acc, col, d);
        row_grows(c, with_picked(c, acc, col, d), col, places.last() as int);
        if places.last() < rows_of_column(c, col) {
            assert(held_len(held(col, places.last() as int)) <= 0xffff_ffff);
        }
    }
}

/// A column without rows holds nothing.
pub(crate) proof fn blank_held<C: ColumnCodec>(c: C, col: ColumnSeq)
    requires
        !(sort_of(col) is List),
        !(col is StringDict),
    ensures
        kept(blank_like(col)),
        sort_of(blank_like(col)) == sort_of(col),
        held_all(c, blank_like(col)) == Seq::<Held>::empty(),
        data_len(blank_like(col)) == 0,
{
    assert(held_all(c, blank_like(col)) =~= Seq::<Held>::empty());
    assert forall|i: int| !#[trigger] bit(Seq::<u8>::empty(), i) by {}
}

proof fn sliced_held<C: ColumnCodec>(c: C, col: ColumnSeq, x: int, y: int)
    requires
        !(sort_of(col) is List),
        !(col is StringDict),
        short(c, col),
        0 <= x <= y <= rows_of_column(c, col) <= u32::MAX,
    ensures
        sort_of(sliced(c, col, x, y)) == sort_of(col),
        held_all(c, sliced(c, col, x, y)) == held_all(c, col).subrange(x, y),
{
    let none = blank_like(col);
    blank_held(c, col);
    rows_fit(c, none, col, x, y);
    assert(held_all(c, none).len() == 0);
    rows_held(c, none, col, x, y);
    assert(Seq::<Held>::empty() + held_all(c, col).subrange(x, y) =~= held_all(c, col).subrange(
        x,
        y,
    ));
}

pub(crate) proof fn picked_held<C: ColumnCodec>(c: C, col: ColumnSeq, places: Seq<usize>)
    requires
        !(sort_of(col) is List),
        !(col is StringDict),
        short(c, col),
        forall|k: int| 0 <= k < places.len() ==> #[trigger] places[k] < rows_of_column(c, col),
        places.len() <= u32::MAX,
    ensures
        sort_of(picked(c, col, places)) == sort_of(col),
        held_all(c, picked(c, col, places)) == Seq::new(
            places.len(),
            |k: int| held(col, places[k] as int),
        ),
{
    let none = blank_like(col);
    blank_held(c, col);
    picks_fit(c, none, col, places);
    assert(held_all(c, none).len() == 0);
    picks_held(c, none, col, places);
    let all = Seq::new(places.len(), |k: int| held(col, places[k] as int));
    assert(Seq::<Held>::empty() + all =~= all);
}

/// Spelling a dictionary out changes no value.
pub(crate) proof fn spelled_held<C: ColumnCodec>(c: C, col: ColumnSeq)
    requires
        !(sort_of(col) is List),
        short(c, col),
        rows_of_column(c, col) <= u32::MAX,
    ensures
        sort_of(spelled(c, col)) == sort_of(col),
        !(spelled(c, col) is StringDict),
        held_all(c, spelled(c, col)) == held_all(c, col),
        rows_of_column(c, spelled(c, col)) == rows_of_column(c, col),
        short(c, spelled(c, col)),
{
    if col is StringDict {
        let none = empty_column(ColumnType::String);
        let n = rows_of_column(c, col);
        blank_held(c, none);
        assert(blank_like(none) == none);
        rows_fit(c, none, col, 0, n);
        assert(held_all(c, none).len() == 0);
        rows_held(c, none, col, 0, n);
        assert(Seq::<Held>::empty() + held_all(c, col).subrange(0, n) =~= held_all(c, col));
        let now = spelled(c, col);
        assert(held_all(c, now).len() == rows_of_column(c, now));
        assert forall|r: int| 0 <= r < rows_of_column(c, now) implies held_len(
            #[trigger] held(now, r),
        ) <= 0xffff_ffff by {
            assert(held_all(c, now)[r] == held_all(c, col)[r]);
            assert(held_len(held(col, r)) <= 0xffff_ffff);
        }
    }
}

/// A column that is added behind another takes no bytes away from it.
pub(crate) proof fn joined_grows<C: ColumnCodec>(c: C, acc: ColumnSeq, col: ColumnSeq, n: int)
    ensures
        data_len(acc) <= data_len(with_rows(c, acc, col, 0, n)),
    decreases n,
{
    if n > 0 {
        joined_grows(c, acc, col, n - 1);
        row_grows(c, with_rows(c, acc, col, 0, n - 1), col, n - 1);
    }
}

/// Whether the columns of row group `i` are read at their places on record.
pub open spec fn on_record(f: V4Footer, file: Seq<u8>, i: int) -> bool {
    let meta = f.row_groups@[i];
    stored_group(meta, file) matches Ok(s) && s[28] == RG_COMPRESS_NONE && meta.deletion_count == 0
        && s[29] >= 1 && f.rcix(i, 0) is Some
}

/// What is read of a column of row group `i`, all of it or its first rows: the values and the null
/// marks.
pub open spec fn read_part<C: ColumnCodec>(
    c: C,
    f: V4Footer,
    file: Seq<u8>,
    cols: Seq<usize>,
    i: int,
    p: int,
    first: Option<nat>,
) -> Option<(ColumnSeq, Seq<u8>)> {
    let meta = f.row_groups@[i];
    let rows = meta.row_count as int;
    let bm = bitmap_len(rows);
    if on_record(f, file, i) {
        let at = meta.offset + 32 + f.rcix(i, cols[p] as int)->0;
        match column_read(
            c,
            true,
            tail(file, at + bm),
            f.schema.kind(cols[p] as int),
            first,
        ) {
            Some((v, _)) if f.rcix(i, cols[p] as int) is Some && at + bm < file.len() => Some(
                (v, file.subrange(at, at + bm)),
            ),
            _ => None,
        }
    } else {
        let g = group_of(c, meta, file)->Ok_0;
        match found_from(
            c,
            f.schema,
            g.version >= 1,
            g.body,
            bm,
            wanted_of(cols, f.schema.columns@.len() as int),
            first,
            Seq::empty(),
            0,
            id_section(rows, g.ids) + bm,
        ) {
            Ok(found) => match walked_piece(found, cols, p) {
                Some(x) => Some((x.data, x.nulls)),
                None => None,
            },
            Err(_) => None,
        }
    }
}

/// The values of a column of row group `i`, row by row.
pub open spec fn group_held<C: ColumnCodec>(
    c: C,
    f: V4Footer,
    file: Seq<u8>,
    cols: Seq<usize>,
    i: int,
    p: int,
) -> Seq<Held> {
    match read_part(c, f, file, cols, i, p, None) {
        Some((v, _)) => held_all(c, v),
        None => Seq::empty(),
    }
}

/// The null marks of a column of row group `i`.
pub open spec fn group_marks<C: ColumnCodec>(
    c: C,
    f: V4Footer,
    file: Seq<u8>,
    cols: Seq<usize>,
    i: int,
    p: int,
) -> Seq<u8> {
    match read_part(c, f, file, cols, i, p, None) {
        Some((_, nulls)) => nulls,
        None => Seq::empty(),
    }
}

/// Whether reading the first `n` rows of a column of row group `i`, or all of them, gives their values
/// and null marks.
pub open spec fn reads_first<C: ColumnCodec>(
    c: C,
    f: V4Footer,
    file: Seq<u8>,
    cols: Seq<usize>,
    i: int,
    p: int,
    first: Option<nat>,
    n: int,
) -> bool {
    match read_part(c, f, file, cols, i, p, first) {
        None => false,
        Some((v, nulls)) => {
            &&& sort_of(v) == sort_of_kind(f.schema.kind(cols[p] as int))
            &&& rows_of_column(c, v) == n
            &&& short(c, v)
            &&& held_all(c, v) == group_held(c, f, file, cols, i, p).take(n)
            &&& nulls == group_marks(c, f, file, cols, i, p)
        },
    }
}

/// Whether a column of row group `i` has a value for each row, none of them a list, and reading its
/// first rows gives the first of them.
pub open spec fn sound_cells<C: ColumnCodec>(
    c: C,
    f: V4Footer,
    file: Seq<u8>,
    cols: Seq<usize>,
    i: int,
    p: int,
) -> bool {
    let rows = f.row_groups@[i].row_count as int;
    &&& !(sort_of_kind(f.schema.kind(cols[p] as int)) is List)
    &&& reads_first(c, f, file, cols, i, p, None, rows)
    &&& forall|n: nat|
        n < rows ==> #[trigger] reads_first(c, f, file, cols, i, p, Some(n), n as int)
}

/// The values of the rows that a cut takes.
pub open spec fn cut_held<C: ColumnCodec>(
    c: C,
    f: V4Footer,
    file: Seq<u8>,
    cols: Seq<usize>,
    i: int,
    p: int,
    cut: Cut,
) -> Seq<Held> {
    Seq::new(
        cut.take as nat,
        |j: int| group_held(c, f, file, cols, i, p)[group_live(c, f, file, i)[cut.skip + j] as int],
    )
}

/// The null marks of the rows that a cut takes.
pub open spec fn cut_marks<C: ColumnCodec>(
    c: C,
    f: V4Footer,
    file: Seq<u8>,
    cols: Seq<usize>,
    i: int,
    p: int,
    cut: Cut,
) -> Seq<bool> {
    Seq::new(
        cut.take as nat,
        |j: int|
            bit(
                group_marks(c, f, file, cols, i, p),
                group_live(c, f, file, i)[cut.skip + j] as int,
            ),
    )
}

/// Whether a column has grown by another that holds the rows that a cut takes.
pub open spec fn grown_by<C: ColumnCodec>(
    c: C,
    f: V4Footer,
    file: Seq<u8>,
    cols: Seq<usize>,
    i: int,
    p: int,
    cut: Cut,
    st: GatherSeq,
    now: GatherSeq,
    data: ColumnSeq,
) -> bool {
    &&& now.cols[p] == joined(c, st.cols[p], data)
    &&& sort_of(data) == sort_of_kind(f.schema.kind(cols[p] as int))
    &&& held_all(c, data) == cut_held(c, f, file, cols, i, p, cut)
    &&& now.nulls[p] == st.nulls[p] + cut_marks(c, f, file, cols, i, p, cut)
}

proof fn part_of_placed<C: ColumnCodec>(
    c: C,
    f: V4Footer,
    file: Seq<u8>,
    i: int,
    cols: Seq<usize>,
    cut: Cut,
    wide: bool,
    k: int,
    p: int,
)
    requires
        0 <= p < k,
        placed_parts(c, f, file, i, cols, cut, wide, k) is Ok,
    ensures
        placed_parts(c, f, file, i, cols, cut, wide, k)->Ok_0.len() == k,
        placed_part(c, f, file, i, cols[p] as int, cut, wide) == Ok::<PartSeq, ScanError>(
            placed_parts(c, f, file, i, cols, cut, wide, k)->Ok_0[p],
        ),
    decreases k,
{
    if k > 1 {
        if p < k - 1 {
            part_of_placed(c, f, file, i, cols, cut, wide, k - 1, p);
        } else {
            part_of_placed(c, f, file, i, cols, cut, wide, k - 1, 0);
        }
    } else {
        reveal_with_fuel(placed_parts, 2);
    }
}

#[verifier::spinoff_prover]
proof fn placed_grows<C: ColumnCodec>(
    c: C,
    f: V4Footer,
    file: Seq<u8>,
    cols: Seq<usize>,
    i: int,
    p: int,
    cut: Cut,
    st: GatherSeq,
) -> (data: ColumnSeq)
    requires
        f.wf(),
        0 <= i < f.row_groups@.len(),
        0 <= p < cols.len(),
        on_record(f, file, i),
        sound_live(c, f, file, i),
        sound_cells(c, f, file, cols, i, p),
        0 <= cut.skip,
        0 <= cut.take,
        cut.skip + cut.take <= f.row_groups@[i].live(),
        gather_placed(
            c,
            f,
            file,
            stored_group(f.row_groups@[i], file)->Ok_0[30],
            cols,
            i,
            cut,
            st,
        ) is Ok,
    ensures
        grown_by(
            c,
            f,
            file,
            cols,
            i,
            p,
            cut,
            st,
            gather_placed(
                c,
                f,
                file,
                stored_group(f.row_groups@[i], file)->Ok_0[30],
                cols,
                i,
                cut,
                st,
            )->Ok_0,
            data,
        ),
{
    reveal(placed_part);
    let meta = f.row_groups@[i];
    let rows = meta.row_count as int;
    let wide = cut.take >= 50_000 && cols.len() >= 2;
    let nulls = group_marks(c, f, file, cols, i, p);
    let all = group_held(c, f, file, cols, i, p);
    part_of_placed(c, f, file, i, cols, cut, wide, cols.len() as int, p);
    let want = cut_held(c, f, file, cols, i, p, cut);
    let parts = placed_parts(c, f, file, i, cols, cut, wide, cols.len() as int)->Ok_0;
    let first = if cut.skip == 0 && cut.take < rows {
        Some(cut.take as nat)
    } else {
        None
    };
    let n = if first is Some {
        cut.take
    } else {
        rows
    };
    assert(reads_first(c, f, file, cols, i, p, first, n));
    let (v, _) = read_part(c, f, file, cols, i, p, first)->0;
    let whole = spelled(c, v);
    spelled_held(c, v);
    let data = if cut.skip > 0 || cut.take < n {
        sliced_held(c, whole, cut.skip, cut.skip + cut.take);
        assert(want =~= all.take(n).subrange(cut.skip, cut.skip + cut.take));
        sliced(c, whole, cut.skip, cut.skip + cut.take)
    } else {
        assert(want =~= all.take(n));
        whole
    };
    assert(parts[p] == PartSeq::Values { data, nulls });
    assert(marks_at(nulls, span(cut.skip, cut.take)) =~= cut_marks(c, f, file, cols, i, p, cut));
    data
}

#[verifier::spinoff_prover]
proof fn walked_grows<C: ColumnCodec>(
    c: C,
    f: V4Footer,
    file: Seq<u8>,
    cols: Seq<usize>,
    i: int,
    p: int,
    cut: Cut,
    st: GatherSeq,
) -> (data: ColumnSeq)
    requires
        f.wf(),
        0 <= i < f.row_groups@.len(),
        0 <= p < cols.len(),
        !on_record(f, file, i),
        sound_live(c, f, file, i),
        sound_cells(c, f, file, cols, i, p),
        0 <= cut.skip,
        0 <= cut.take,
        cut.skip + cut.take <= f.row_groups@[i].live(),
        gather_walked(c, f, group_of(c, f.row_groups@[i], file)->Ok_0, cols, i, cut, st) is Ok,
    ensures
        grown_by(
            c,
            f,
            file,
            cols,
            i,
            p,
            cut,
            st,
            gather_walked(
                c,
                f,
                group_of(c, f.row_groups@[i], file)->Ok_0,
                cols,
                i,
                cut,
                st,
            )->Ok_0,
            data,
        ),
{
    let meta = f.row_groups@[i];
    let rows = meta.row_count as int;
    let bm = bitmap_len(rows);
    let g = group_of(c, meta, file)->Ok_0;
    let d = window(g.body, id_section(rows, g.ids), bm)->0;
    let places = cut_rows(meta, d, cut);
    let live = group_live(c, f, file, i);
    let nulls = group_marks(c, f, file, cols, i, p);
    let all = group_held(c, f, file, cols, i, p);
    let want = cut_held(c, f, file, cols, i, p, cut);
    cut_is_part(c, f, file, i, cut);
    group_live_bound(c, f, file, i);
    let first = first_of(meta, g.version, cut);
    let n = if first is Some {
        cut.take
    } else {
        rows
    };
    let found = found_from(
        c,
        f.schema,
        g.version >= 1,
        g.body,
        bm,
        wanted_of(cols, f.schema.columns@.len() as int),
        first,
        Seq::empty(),
        0,
        id_section(rows, g.ids) + bm,
    )->Ok_0;
    let parts = walked_parts(c, meta, g.version, places, cut, found, cols);
    assert(reads_first(c, f, file, cols, i, p, first, n));
    let (v, _) = read_part(c, f, file, cols, i, p, first)->0;
    let whole = spelled(c, v);
    spelled_held(c, v);
    let data = if served_by_first(meta, g.version, cut) {
        assert(want =~= all.take(n));
        whole
    } else if meta.deletion_count > 0 {
        assert forall|k: int| 0 <= k < places.len() implies #[trigger] places[k] < rows_of_column(
            c,
            whole,
        ) by {
            assert(places[k] == live[cut.skip + k]);
        }
        picked_held(c, whole, places);
        let some = Seq::new(places.len(), |k: int| held(whole, places[k] as int));
        assert forall|k: int| 0 <= k < some.len() implies #[trigger] some[k] == want[k] by {
            assert(places[k] == live[cut.skip + k]);
            assert(places[k] < rows_of_column(c, whole));
            assert(held_all(c, whole)[places[k] as int] == all.take(n)[places[k] as int]);
        }
        assert(some =~= want);
        picked(c, whole, places)
    } else if cut.skip > 0 || cut.take < rows {
        sliced_held(c, whole, cut.skip, cut.skip + cut.take);
        assert(want =~= all.take(n).subrange(cut.skip, cut.skip + cut.take));
        sliced(c, whole, cut.skip, cut.skip + cut.take)
    } else {
        assert(want =~= all.take(n));
        whole
    };
    assert(parts[p] == PartSeq::Values { data, nulls });
    assert(marks_at(nulls, places) =~= cut_marks(c, f, file, cols, i, p, cut));
    data
}

/// Whether a row of the store holds a value in a column, and whether it is marked as missing.
pub open spec fn row_holds<C: ColumnCodec>(
    c: C,
    f: V4Footer,
    file: Seq<u8>,
    cols: Seq<usize>,
    p: int,
    row: usize,
    x: Held,
    missing: bool,
) -> bool {
    exists|i: int| #[trigger]
        lies_in(f, i, row as int) && ({
            let r = row - rows_before(f.row_groups@, i);
            &&& group_held(c, f, file, cols, i, p)[r] == x
            &&& bit(group_marks(c, f, file, cols, i, p), r) == missing
        })
}

/// Whether a gathered column holds the values of the live rows from `start` on, one for each row that
/// was taken, in order, each with its null mark.
pub open spec fn gathered_cells<C: ColumnCodec>(
    c: C,
    f: V4Footer,
    file: Seq<u8>,
    cols: Seq<usize>,
    start: int,
    p: int,
    k: int,
    st: GatherSeq,
) -> bool {
    &&& kept(st.cols[p])
    &&& sort_of(st.cols[p]) == sort_of_kind(f.schema.kind(cols[p] as int))
    &&& rows_of_column(c, st.cols[p]) == st.taken
    &&& st.nulls[p].len() == st.taken
    &&& forall|j: int|
        0 <= j < st.taken ==> row_holds(
            c,
            f,
            file,
            cols,
            p,
            all_live(c, f, file, k)[start + j],
            #[trigger] held(st.cols[p], j),
            st.nulls[p][j],
        )
}

/// A column that has grown by the rows of a cut holds the values of its rows.
#[verifier::spinoff_prover]
proof fn cells_joined<C: ColumnCodec>(
    c: C,
    f: V4Footer,
    file: Seq<u8>,
    cols: Seq<usize>,
    start: int,
    p: int,
    i: int,
    cut: Cut,
    st: GatherSeq,
    now: GatherSeq,
    data: ColumnSeq,
)
    requires
        f.wf(),
        0 <= i < f.row_groups@.len(),
        !(sort_of_kind(f.schema.kind(cols[p] as int)) is List),
        gathered_cells(c, f, file, cols, start, p, i, st),
        grown_by(c, f, file, cols, i, p, cut, st, now, data),
        data_len(now.cols[p]) <= u64::MAX,
        0 <= start,
        0 <= st.taken,
        now.taken == st.taken + cut.take,
        now.taken <= usize::MAX,
        0 <= cut.skip,
        0 <= cut.take,
        cut.skip + cut.take <= group_live(c, f, file, i).len(),
        cut.skip == start + st.taken - all_live(c, f, file, i).len(),
        st.taken > 0 ==> start + st.taken <= all_live(c, f, file, i).len(),
    ensures
        gathered_cells(c, f, file, cols, start, p, i + 1, now),
{
    let before = all_live(c, f, file, i);
    let all = all_live(c, f, file, i + 1);
    let here = group_live(c, f, file, i);
    let base = rows_before(f.row_groups@, i);
    let more = cut_held(c, f, file, cols, i, p, cut);
    let marks = cut_marks(c, f, file, cols, i, p, cut);
    let was = st.cols[p];
    group_bounds(f, i);
    group_live_bound(c, f, file, i);
    assert(held_all(c, was).len() == st.taken);
    assert(held_all(c, data).len() == cut.take);
    assert(rows_of_column(c, data) == cut.take || rows_of_column(c, data) < 0);
    assert(rows_of_column(c, data) >= 0);
    rows_held(c, was, data, 0, rows_of_column(c, data));
    assert(held_all(c, data).subrange(0, cut.take) =~= more);
    assert(held_all(c, now.cols[p]) == held_all(c, was) + more);
    assert(held_all(c, now.cols[p]).len() == now.taken);
    assert(rows_of_column(c, now.cols[p]) >= 0);
    assert forall|j: int| 0 <= j < now.taken implies row_holds(
        c,
        f,
        file,
        cols,
        p,
        all[start + j],
        #[trigger] held(now.cols[p], j),
        now.nulls[p][j],
    ) by {
        assert(held_all(c, now.cols[p])[j] == held(now.cols[p], j));
        if j < st.taken {
            assert(held_all(c, was)[j] == held(was, j));
            assert(all[start + j] == before[start + j]);
            assert(row_holds(
                c,
                f,
                file,
                cols,
                p,
                before[start + j],
                held(was, j),
                st.nulls[p][j],
            ));
        } else {
            let m = j - st.taken;
            let r = here[cut.skip + m];
            assert(r < f.row_groups@[i].row_count);
            assert(all[start + j] == (base + r) as usize);
            assert(held(now.cols[p], j) == more[m]);
            assert(now.nulls[p][j] == marks[m]);
            assert(lies_in(f, i, all[start + j] as int));
        }
    }
}

/// Gathering takes the values of the live rows from `start` on, at most `limit` of them, in order, each
/// with its null mark: integers, floats, strings (spelled out where they stand in a dictionary), truth
/// values and bytes. The strings or bytes that are gathered can be counted by an offset.
#[verifier::spinoff_prover]
pub proof fn law_gathered_cells<C: ColumnCodec>(
    c: C,
    f: V4Footer,
    file: Seq<u8>,
    cols: Seq<usize>,
    start: int,
    limit: int,
    p: int,
    k: int,
)
    requires
        f.wf(),
        0 <= start,
        0 <= limit,
        0 <= p < cols.len(),
        0 <= k <= f.row_groups@.len(),
        !(sort_of_kind(f.schema.kind(cols[p] as int)) is List),
        forall|i: int|
            0 <= i < k && f.row_groups@[i].row_count > 0 ==> #[trigger] sound_live(c, f, file, i),
        forall|i: int|
            0 <= i < k && f.row_groups@[i].row_count > 0 ==> #[trigger] sound_cells(
                c,
                f,
                file,
                cols,
                i,
                p,
            ),
        gather_upto(c, f, file, cols, start, limit, k) is Ok,
        data_len(gather_upto(c, f, file, cols, start, limit, k)->Ok_0.cols[p]) <= u64::MAX,
    ensures
        gathered_cells(
            c,
            f,
            file,
            cols,
            start,
            p,
            k,
            gather_upto(c, f, file, cols, start, limit, k)->Ok_0,
        ),
    decreases k,
{
    if k > 0 {
        let i = k - 1;
        law_gathered_rows(c, f, file, cols, start, limit, i);
        all_live_len(c, f, file, i);
        all_live_len(c, f, file, k);
        live_before_bound(f.row_groups@, i, k);
        group_bounds(f, i);
        let st = gather_upto(c, f, file, cols, start, limit, i)->Ok_0;
        let now = gather_upto(c, f, file, cols, start, limit, k)->Ok_0;
        let meta = f.row_groups@[i];
        let live = meta.live();
        let cut = cut_of(live, start, limit, st.taken, st.seen);
        let before = all_live(c, f, file, i);
        let all = all_live(c, f, file, k);
        assert(gather_group(c, f, file, cols, start, limit, i, st) == Ok::<GatherSeq, ScanError>(
            now,
        ));
        let goes = !(st.taken >= limit || meta.row_count == 0) && !(st.seen + live <= start
            || cut.take == 0);
        if goes {
            assert(sound_live(c, f, file, i));
            assert(sound_cells(c, f, file, cols, i, p));
            let data = if on_record(f, file, i) {
                placed_grows(c, f, file, cols, i, p, cut, st)
            } else {
                walked_grows(c, f, file, cols, i, p, cut, st)
            };
            assert(grown_by(c, f, file, cols, i, p, cut, st, now, data));
            joined_grows(c, crate::column_ops::shaped(st.cols[p], data), data, rows_of_column(c, data));
            law_gathered_cells(c, f, file, cols, start, limit, p, i);
            cells_joined(c, f, file, cols, start, p, i, cut, st, now, data);
        } else {
            assert(now.cols == st.cols && now.nulls == st.nulls && now.taken == st.taken);
            law_gathered_cells(c, f, file, cols, start, limit, p, i);
            assert forall|j: int| 0 <= j < now.taken implies row_holds(
                c,
                f,
                file,
                cols,
                p,
                all[start + j],
                #[trigger] held(now.cols[p], j),
                now.nulls[p][j],
            ) by {
                assert(all[start + j] == before[start + j]);
                assert(row_holds(
                    c,
                    f,
                    file,
                    cols,
                    p,
                    before[start + j],
                    held(st.cols[p], j),
                    st.nulls[p][j],
                ));
            }
        }
    } else {
        let kind = f.schema.kind(cols[p] as int);
        let none = empty_column(collected_kind(kind));
        blank_held(c, none);
        assert(blank_like(none) == none);
    }
}

} // verus!
