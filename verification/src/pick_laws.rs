//! Scans for numbers give the live rows whose number is asked for: all of them, no others, in order.

use vstd::prelude::*;

use crate::bytes::{bit, bitmap_len, i64_le, packed_value, u64_le};
use crate::codec::ColumnCodec;
use crate::column::ColumnSeq;
use crate::double::{at_least, at_most, is_nan, F64};
use crate::group::{group_of, id_section, tail, window};
use crate::meaning::{
    between, bounds_hold, data_at, decoded_at, deleted_at, double_at, flag, is_one_of, is_plain,
    law_holder, lists, marks_len, missing_at, number_at, place_of, row_deleted, row_missing,
    row_number, whole_column, whole_numbers, Number,
};
use crate::model::{is_float, is_int, rows_before, ScanError, V4Footer, COL_ENCODING_PLAIN};
use crate::numeric::{
    all_fast, encoding_of, f64_le, greatest, in_query, in_test, least, min2, num_rows,
    plain_numbers, range_query, range_test, tag_len, NumSeq, QuerySeq, TestSeq,
};
use crate::range_laws::{in_place_is_in_turn, lies_in};
use crate::scan_laws::{
    group_bounds, law_range_of_ints, law_select_limit, law_zone_misses_ints, law_zone_misses_reals,
};
use crate::select::select;
use crate::storage::{max_rows, OnDemandStorage};

verus! {

/// A selection adds the rows of a kind among those of a row group.
pub(crate) proof fn lists_grow(
    hit: spec_fn(int) -> bool,
    n: int,
    base: int,
    acc: Seq<usize>,
    max: int,
    kind: spec_fn(int) -> bool,
)
    requires
        lists(acc, base, kind),
        0 <= base,
        0 <= n,
        base + n <= usize::MAX,
        acc.len() + n <= max,
        forall|r: int| 0 <= r < n ==> #[trigger] hit(r) == kind(base + r),
    ensures
        lists(select(hit, n, base, acc, max), base + n, kind),
        select(hit, n, base, acc, max).len() <= acc.len() + n,
    decreases n,
{
    if n > 0 {
        lists_grow(hit, n - 1, base, acc, max, kind);
        let before = select(hit, n - 1, base, acc, max);
        let v = select(hit, n, base, acc, max);
        let last = base + n - 1;
        assert(hit(n - 1) == kind(base + (n - 1)));
        lists_step(before, v, last, kind);
    }
}

/// One more row keeps a list.
pub(crate) proof fn lists_step(before: Seq<usize>, v: Seq<usize>, last: int, kind: spec_fn(int) -> bool)
    requires
        0 <= last < usize::MAX,
        lists(before, last, kind),
        v == (if kind(last) {
            before.push(last as usize)
        } else {
            before
        }),
    ensures
        lists(v, last + 1, kind),
{
    assert forall|x: int| 0 <= x < last + 1 && #[trigger] kind(x) implies v.contains(x as usize) by {
        if x == last {
            assert(v[before.len() as int] == x as usize);
        } else {
            assert(before.contains(x as usize));
            let k = choose|k: int| 0 <= k < before.len() && before[k] == x as usize;
            assert(v[k] == x as usize);
        }
    }
    assert forall|j: int, k: int| 0 <= j < k < v.len() implies #[trigger] v[j] < #[trigger] v[k] by {
        assert(v[j] == before[j]);
        if k < before.len() {
            assert(v[k] == before[k]);
        }
    }
    assert forall|k: int| 0 <= k < v.len() implies (#[trigger] v[k]) < last + 1 && kind(
        v[k] as int,
    ) by {
        if k < before.len() {
            assert(v[k] == before[k]);
        }
    }
}

/// Rows without one of a kind keep a list.
pub(crate) proof fn lists_skip(v: Seq<usize>, n: int, m: int, kind: spec_fn(int) -> bool)
    requires
        lists(v, n, kind),
        n <= m,
        forall|x: int| n <= x < m ==> !#[trigger] kind(x),
    ensures
        lists(v, m, kind),
{
}

/// Only which rows are of a kind matters.
pub(crate) proof fn lists_same(
    v: Seq<usize>,
    n: int,
    a: spec_fn(int) -> bool,
    b: spec_fn(int) -> bool,
)
    requires
        lists(v, n, a),
        forall|x: int| 0 <= x < n ==> #[trigger] a(x) == b(x),
    ensures
        lists(v, n, b),
{
    assert forall|k: int| 0 <= k < v.len() implies (#[trigger] v[k]) < n && b(v[k] as int) by {
        assert(a(v[k] as int));
    }
    assert forall|x: int| 0 <= x < n && #[trigger] b(x) implies v.contains(x as usize) by {
        assert(a(x));
    }
}

/// Marks in a part of some bytes are those behind its start.
pub(crate) proof fn flag_is_bit(s: Seq<u8>, from: int, rows: int, r: int)
    requires
        0 <= from,
        0 <= r < rows,
        from + marks_len(rows) <= s.len(),
    ensures
        bit(s.subrange(from, from + marks_len(rows)), r) == flag(s, from, r),
{
    assert(r / 8 < marks_len(rows));
}

/// Words behind a start are those of the bytes from there on.
pub(crate) proof fn words_behind(s: Seq<u8>, from: int, o: int)
    requires
        0 <= from,
        0 <= o,
        from + o + 8 <= s.len(),
    ensures
        u64_le(tail(s, from), o) == u64_le(s, from + o),
        i64_le(tail(s, from), o) == i64_le(s, from + o),
        f64_le(tail(s, from), o) == double_at(s, from + o),
{
}

/// Whether a number passes a test.
pub open spec fn accepts(test: TestSeq, x: Number) -> bool {
    match x {
        Number::Int(v) => test.accepts_int(v),
        Number::Real(v) => test.accepts_real(v),
    }
}

/// Whether row `r` of row group `i` is live and has a number that passes a test.
pub open spec fn counts<C: ColumnCodec>(
    c: C,
    f: V4Footer,
    file: Seq<u8>,
    col: int,
    test: TestSeq,
    i: int,
    r: int,
) -> bool {
    !deleted_at(c, f, file, i, r) && !missing_at(c, f, file, col, i, r) && accepts(
        test,
        number_at(c, f, file, col, i, r),
    )
}

/// The deletion bitmap and the null bitmap of a column tell which rows are deleted or missing.
pub(crate) proof fn marks_of_group<C: ColumnCodec>(
    c: C,
    f: V4Footer,
    file: Seq<u8>,
    col: int,
    i: int,
    r: int,
)
    requires
        whole_column(c, f, file, col, i),
        0 <= r < f.row_groups@[i].row_count,
    ensures
        ({
            let meta = f.row_groups@[i];
            let rows = meta.row_count as int;
            let g = group_of(c, meta, file)->Ok_0;
            let bm = bitmap_len(rows);
            let p = place_of(c, f, file, col, i);
            let d = window(g.body, id_section(rows, g.ids), bm);
            &&& d is Some
            &&& meta.deletion_count > 0 ==> bit(d->0, r) == deleted_at(c, f, file, i, r)
            &&& bit(g.body.subrange(p, p + bm), r) == missing_at(c, f, file, col, i, r)
        }),
{
    let meta = f.row_groups@[i];
    let rows = meta.row_count as int;
    let g = group_of(c, meta, file)->Ok_0;
    let p = place_of(c, f, file, col, i);
    flag_is_bit(g.body, id_section(rows, g.ids), rows, r);
    flag_is_bit(g.body, p, rows, r);
}

/// The numbers of a whole column in a form that is scanned.
pub(crate) proof fn plain_is_numbers<C: ColumnCodec>(
    c: C,
    f: V4Footer,
    file: Seq<u8>,
    col: int,
    i: int,
)
    requires
        whole_numbers(c, f, file, col, i),
        f.row_groups@[i].row_count > 0,
        is_plain(c, f, file, col, i),
    ensures
        ({
            let rows = f.row_groups@[i].row_count as int;
            let g = group_of(c, f.row_groups@[i], file)->Ok_0;
            let column = tail(g.body, place_of(c, f, file, col, i) + bitmap_len(rows));
            let payload = tail(column, tag_len(g.version));
            let ints = is_int(f.schema.kind(col));
            let (src, n) = plain_numbers(ints, rows, payload);
            &&& encoding_of(g.version, column) == COL_ENCODING_PLAIN
            &&& column.len() > tag_len(g.version) + 8
            &&& payload.len() > 8
            &&& n == rows
            &&& src == (if ints {
                NumSeq::PlainInt(tail(payload, 8))
            } else {
                NumSeq::PlainReal(tail(payload, 8))
            })
            &&& forall|r: int|
                0 <= r < rows ==> #[trigger] number_at(c, f, file, col, i, r) == (if ints {
                    Number::Int(i64_le(tail(payload, 8), r * 8))
                } else {
                    Number::Real(f64_le(tail(payload, 8), r * 8))
                })
        }),
{
    let rows = f.row_groups@[i].row_count as int;
    let g = group_of(c, f.row_groups@[i], file)->Ok_0;
    let p = place_of(c, f, file, col, i);
    let column = tail(g.body, p + bitmap_len(rows));
    let payload = tail(column, tag_len(g.version));
    let at = data_at(c, f, file, col, i);
    assert(payload =~= tail(g.body, at));
    words_behind(g.body, at, 0);
    let words = tail(payload, 8);
    assert(words =~= tail(g.body, at + 8));
    assert(words.len() / 8 >= rows);
    assert forall|r: int| 0 <= r < rows implies #[trigger] number_at(c, f, file, col, i, r) == (
    if is_int(f.schema.kind(col)) {
        Number::Int(i64_le(words, r * 8))
    } else {
        Number::Real(f64_le(words, r * 8))
    }) by {
        words_behind(g.body, at + 8, r * 8);
    }
}

/// Packed fields that are read in place are the integers that decoding gives.
pub(crate) proof fn fields_are_decoded<C: ColumnCodec>(
    q: QuerySeq,
    c: C,
    f: V4Footer,
    file: Seq<u8>,
    i: int,
    r: int,
)
    requires
        0 <= r < f.row_groups@[i].row_count,
        q.ints == is_int(f.schema.kind(q.col)),
        whole_numbers(c, f, file, q.col, i),
        !is_plain(c, f, file, q.col, i),
    ensures
        ({
            let rows = f.row_groups@[i].row_count as int;
            let g = group_of(c, f.row_groups@[i], file)->Ok_0;
            let column = tail(g.body, place_of(c, f, file, q.col, i) + bitmap_len(rows));
            q.direct(g.version, rows, column) matches Some((src, n)) ==> n == rows && src.hit(
                q.test,
                r,
            ) == accepts(q.test, number_at(c, f, file, q.col, i, r))
        }),
{
    let rows = f.row_groups@[i].row_count as int;
    let g = group_of(c, f.row_groups@[i], file)->Ok_0;
    let column = tail(g.body, place_of(c, f, file, q.col, i) + bitmap_len(rows));
    let at = data_at(c, f, file, q.col, i);
    let payload = tail(column, tag_len(g.version));
    assert(payload =~= tail(g.body, at));
    if let Some((src, n)) = q.direct(g.version, rows, column) {
        words_behind(g.body, at, 0);
        words_behind(g.body, at, 9);
        let width = g.body[at + 8] as int;
        assert(payload[8] == g.body[at + 8]);
        assert(bitmap_len(rows * width) == (rows * width + 7) / 8);
        assert(payload.subrange(17, 17 + bitmap_len(rows * width)) =~= g.body.subrange(
            at + 17,
            at + 17 + (rows * width + 7) / 8,
        ));
        let (v, used) = match decoded_at(c, f, file, q.col, i) {
            Some((ColumnSeq::Int64(v), used)) => (v, used),
            _ => (Seq::empty(), 0nat),
        };
        assert(packed_value(
            g.body.subrange(at + 17, at + 17 + (rows * width + 7) / 8),
            width,
            i64_le(g.body, at + 9),
            r,
        ) == Some(v[r]));
    }
}

/// What a scan looks at in a row group are the rows that count.
#[verifier::spinoff_prover]
pub(crate) proof fn hits_count<C: ColumnCodec>(q: QuerySeq, c: C, f: V4Footer, file: Seq<u8>, i: int)
    requires
        0 <= i < f.row_groups@.len(),
        f.row_groups@[i].row_count > 0,
        !q.bits,
        q.ints == is_int(f.schema.kind(q.col)),
        whole_numbers(c, f, file, q.col, i),
        !q.test.misses(f.zone(i, q.col, false)),
    ensures
        q.hits(c, f, file, i) matches Ok(Some((hit, n))) && n == f.row_groups@[i].row_count
            && forall|r: int|
            0 <= r < n ==> #[trigger] hit(r) == counts(c, f, file, q.col, q.test, i, r),
{
    let meta = f.row_groups@[i];
    let rows = meta.row_count as int;
    let bm = bitmap_len(rows);
    let g = group_of(c, meta, file)->Ok_0;
    let p = place_of(c, f, file, q.col, i);
    let d = window(g.body, id_section(rows, g.ids), bm);
    let column = tail(g.body, p + bm);
    let nulls = g.body.subrange(p, p + bm);
    let payload = tail(column, tag_len(g.version));
    let at = data_at(c, f, file, q.col, i);
    assert(payload =~= tail(g.body, at));
    assert(bm == marks_len(rows));
    marks_of_group(c, f, file, q.col, i, 0);
    let del = if meta.deletion_count > 0 {
        d
    } else {
        None
    };
    assert(column == g.body.subrange(p + bm, g.body.len() as int));
    if is_plain(c, f, file, q.col, i) {
        plain_is_numbers(c, f, file, q.col, i);
        let (src, n) = plain_numbers(q.ints, rows, payload);
        let hit = num_rows(src, q.test, del, Some(nulls));
        assert(q.hits(c, f, file, i) == Ok::<Option<(spec_fn(int) -> bool, int)>, ScanError>(
            Some((hit, n)),
        ));
        assert forall|r: int| 0 <= r < n implies #[trigger] hit(r) == counts(
            c,
            f,
            file,
            q.col,
            q.test,
            i,
            r,
        ) by {
            marks_of_group(c, f, file, q.col, i, r);
            assert(number_at(c, f, file, q.col, i, r) == (if q.ints {
                Number::Int(i64_le(tail(payload, 8), r * 8))
            } else {
                Number::Real(f64_le(tail(payload, 8), r * 8))
            }));
        }
    } else {
        let (hit, n) = q.hits(c, f, file, i)->Ok_0->0;
        assert(encoding_of(g.version, column) != COL_ENCODING_PLAIN);
        assert forall|r: int| 0 <= r < rows implies #[trigger] hit(r) == counts(
            c,
            f,
            file,
            q.col,
            q.test,
            i,
            r,
        ) by {
            marks_of_group(c, f, file, q.col, i, r);
            fields_are_decoded(q, c, f, file, i, r);
        }
    }
}

/// Where a zone map rules a row group out, none of its rows counts.
pub(crate) proof fn none_counts<C: ColumnCodec>(
    c: C,
    f: V4Footer,
    file: Seq<u8>,
    col: int,
    low: F64,
    high: F64,
    i: int,
    r: int,
)
    requires
        bounds_hold(c, f, file, col, i),
        range_test(low, high).misses(f.zone(i, col, false)),
        0 <= r < f.row_groups@[i].row_count,
    ensures
        !counts(c, f, file, col, range_test(low, high), i, r),
{
    let z = f.zone(i, col, false)->0;
    if !deleted_at(c, f, file, i, r) && !missing_at(c, f, file, col, i, r) {
        match number_at(c, f, file, col, i, r) {
            Number::Int(v) => {
                law_zone_misses_ints(low, high, z, v);
            },
            Number::Real(v) => {
                if !is_nan(v.bits) {
                    law_zone_misses_reals(low, high, z, v);
                }
            },
        }
    }
}

/// A scan in turn lists the rows that count, where each row group that is passed over has none.
pub(crate) proof fn scan_lists<C: ColumnCodec>(
    q: QuerySeq,
    c: C,
    f: V4Footer,
    file: Seq<u8>,
    k: int,
    kind: spec_fn(int) -> bool,
)
    requires
        f.wf(),
        0 <= k <= f.row_groups@.len(),
        !q.bits,
        q.max == usize::MAX,
        q.ints == is_int(f.schema.kind(q.col)),
        forall|i: int|
            0 <= i < k && f.row_groups@[i].row_count > 0 ==> #[trigger] whole_numbers(
                c,
                f,
                file,
                q.col,
                i,
            ),
        forall|i: int, r: int|
            0 <= i < k && 0 <= r < f.row_groups@[i].row_count && q.test.misses(
                f.zone(i, q.col, false),
            ) ==> !#[trigger] counts(c, f, file, q.col, q.test, i, r),
        forall|i: int, r: int|
            0 <= i < k && 0 <= r < f.row_groups@[i].row_count ==> kind(
                rows_before(f.row_groups@, i) + r,
            ) == #[trigger] counts(c, f, file, q.col, q.test, i, r),
    ensures
        q.scan(c, f, file, k) matches Ok(v) && lists(v, rows_before(f.row_groups@, k), kind)
            && v.len() <= rows_before(f.row_groups@, k),
    decreases k,
{
    if k > 0 {
        let i = k - 1;
        scan_lists(q, c, f, file, i, kind);
        group_bounds(f, i);
        let acc = q.scan(c, f, file, i)->Ok_0;
        let rows = f.row_groups@[i].row_count as int;
        let base = rows_before(f.row_groups@, i);
        q.law_group_selects(c, f, file, i, acc);
        if rows > 0 {
            assert(whole_numbers(c, f, file, q.col, i));
            if q.test.misses(f.zone(i, q.col, false)) {
                assert forall|x: int| base <= x < base + rows implies !#[trigger] kind(x) by {
                    assert(!counts(c, f, file, q.col, q.test, i, x - base));
                    assert(kind(base + (x - base)) == counts(
                        c,
                        f,
                        file,
                        q.col,
                        q.test,
                        i,
                        x - base,
                    ));
                }
                lists_skip(acc, base, base + rows, kind);
            } else {
                hits_count(q, c, f, file, i);
                let (hit, n) = q.hits(c, f, file, i)->Ok_0->0;
                assert forall|r: int| 0 <= r < n implies #[trigger] hit(r) == kind(base + r) by {
                    assert(hit(r) == counts(c, f, file, q.col, q.test, i, r));
                }
                lists_grow(hit, n, base, acc, q.max, kind);
            }
        }
    }
}

/// Each row of the table is one of a row group.
pub(crate) proof fn in_each_group(f: V4Footer, i: int, r: int)
    requires
        f.wf(),
        0 <= i < f.row_groups@.len(),
        0 <= r < f.row_groups@[i].row_count,
    ensures
        crate::meaning::holder(f, rows_before(f.row_groups@, i) + r) == i,
        crate::meaning::place_in(f, rows_before(f.row_groups@, i) + r) == r,
        rows_before(f.row_groups@, i) + r < f.total_rows(),
{
    group_bounds(f, i);
    crate::model::rows_before_monotonic(f.row_groups@, i + 1, f.row_groups@.len() as int);
    assert(lies_in(f, i, rows_before(f.row_groups@, i) + r));
    law_holder(f, i, rows_before(f.row_groups@, i) + r);
}

/// The start of some rows that a limit leaves; all of them without one.
pub open spec fn up_to(v: Seq<usize>, limit: Option<usize>) -> Seq<usize> {
    match limit {
        Some(m) if m < v.len() => v.subrange(0, m as int),
        _ => v,
    }
}

impl<C: ColumnCodec> OnDemandStorage<C> {
    /// Whether a column of the table holds a number for each row of each row group.
    pub open spec fn whole_table(self, col_name: Seq<char>) -> bool {
        &&& self.footer matches Some(f) && f.schema.index_of(col_name) matches Some(col)
            && self.file matches Some(file) && {
            let kind = f.schema.kind(col as int);
            &&& is_int(kind) || is_float(kind)
            &&& forall|i: int|
                0 <= i < f.row_groups@.len() && f.row_groups@[i].row_count > 0
                    ==> #[trigger] whole_numbers(self.codec, f, file@, col as int, i)
        }
    }

    /// Whether a row of the table is neither deleted nor missing in a column.
    pub open spec fn has_number(self, col: int, row: int) -> bool {
        let f = self.footer->0;
        !row_deleted(self.codec, f, self.file->0@, row) && !row_missing(
            self.codec,
            f,
            self.file->0@,
            col,
            row,
        )
    }

    /// The number of a row of the table.
    pub open spec fn number(self, col: int, row: int) -> Number {
        row_number(self.codec, self.footer->0, self.file->0@, col, row)
    }

    /// A range scan gives the rows that are neither deleted nor missing and whose number lies between
    /// the bounds, compared as numbers are: all of them, no others, each once, in order; with a limit,
    /// the first of these. The column holds a number for each row, the bounds of its zone maps hold,
    /// and the range does not lie beyond all integers.
    #[verifier::spinoff_prover]
    pub proof fn law_range_lists(
        self,
        col_name: Seq<char>,
        low: F64,
        high: F64,
        limit: Option<usize>,
        all: Seq<usize>,
    )
        requires
            self.wf(),
            self.whole_table(col_name),
            self.sound_range(col_name, low, high),
            ({
                let f = self.footer->0;
                let col = f.schema.index_of(col_name)->0 as int;
                &&& forall|i: int|
                    0 <= i < f.row_groups@.len() ==> #[trigger] bounds_hold(
                        self.codec,
                        f,
                        self.file->0@,
                        col,
                        i,
                    )
                &&& is_int(f.schema.kind(col)) ==> !is_nan(low.bits) && !is_nan(high.bits)
                    && at_most(low, i64::MAX as int) && at_least(high, i64::MIN as int)
                &&& lists(
                    all,
                    f.total_rows(),
                    |row: int| self.has_number(col, row) && between(low, high, self.number(col, row)),
                )
            }),
        ensures
            self.numeric_range(col_name, low, high, limit) == Ok::<Option<Seq<usize>>, ScanError>(
                Some(up_to(all, limit)),
            ),
    {
        let c = self.codec;
        let f = self.footer->0;
        let file = self.file->0@;
        let col = f.schema.index_of(col_name)->0;
        let n = f.row_groups@.len() as int;
        let q = range_query(f, col, low, high, None);
        let kind = |row: int|
            self.has_number(col as int, row) && between(low, high, self.number(col as int, row));
        assert forall|i: int, r: int|
            0 <= i < n && 0 <= r < f.row_groups@[i].row_count && q.test.misses(
                f.zone(i, q.col, false),
            ) implies !#[trigger] counts(c, f, file, q.col, q.test, i, r) by {
            assert(bounds_hold(c, f, file, q.col, i));
            none_counts(c, f, file, q.col, low, high, i, r);
        }
        assert forall|i: int, r: int| 0 <= i < n && 0 <= r < f.row_groups@[i].row_count implies kind(
            rows_before(f.row_groups@, i) + r,
        ) == #[trigger] counts(c, f, file, q.col, q.test, i, r) by {
            in_each_group(f, i, r);
            assert(whole_numbers(c, f, file, q.col, i));
            int_is_integer(c, f, file, q.col, i, r);
            if let Number::Int(v) = number_at(c, f, file, q.col, i, r) {
                law_range_of_ints(low, high, v);
            }
        }
        scan_lists(q, c, f, file, n, kind);
        let found = q.scan(c, f, file, n)->Ok_0;
        same_list(found, all, f.total_rows(), kind);
        if all_fast(f, file, q.col, q.ints) {
            in_place_is_in_turn(q, low, high, c, f, file, n);
        }
        if let Some(m) = limit {
            q.law_limit_is_prefix(c, f, file, m as int, n);
            assert(range_query(f, col, low, high, limit) == QuerySeq { max: m as int, ..q });
            assert(up_to(all, limit) =~= all.take(if all.len() <= m {
                all.len() as int
            } else {
                m as int
            }));
        }
    }

    /// A scan for a list of integers gives the rows that are neither deleted nor missing and whose
    /// number is one of them: all of them, no others, each once, in order; with a limit, the first of
    /// these. The column holds a number for each row. Where it holds integers the bounds of its zone
    /// maps hold; where it holds doubles, no zone map rules a row group out.
    #[verifier::spinoff_prover]
    pub proof fn law_in_lists(
        self,
        col_name: Seq<char>,
        values: Seq<i64>,
        limit: Option<usize>,
        all: Seq<usize>,
    )
        requires
            self.wf(),
            self.whole_table(col_name),
            ({
                let f = self.footer->0;
                let col = f.schema.index_of(col_name)->0 as int;
                &&& forall|i: int|
                    0 <= i < f.row_groups@.len() ==> #[trigger] bounds_hold(
                        self.codec,
                        f,
                        self.file->0@,
                        col,
                        i,
                    ) && (is_int(f.schema.kind(col)) || f.zone(i, col, false) is None)
                &&& lists(
                    all,
                    f.total_rows(),
                    |row: int| self.has_number(col, row) && is_one_of(values, self.number(col, row)),
                )
            }),
        ensures
            self.numeric_in(col_name, values, limit) == Ok::<Option<Seq<usize>>, ScanError>(
                Some(up_to(all, limit)),
            ),
    {
        let c = self.codec;
        let f = self.footer->0;
        let file = self.file->0@;
        let col = f.schema.index_of(col_name)->0;
        let n = f.row_groups@.len() as int;
        let q = in_query(f, col, values, None);
        if values.len() == 0 {
            if all.len() > 0 {
                assert(is_one_of(values, self.number(col as int, all[0] as int)));
            }
            assert(all =~= Seq::empty());
        }
        let kind = |row: int|
            self.has_number(col as int, row) && is_one_of(values, self.number(col as int, row));
        assert forall|i: int, r: int|
            0 <= i < n && 0 <= r < f.row_groups@[i].row_count implies #[trigger] counts(
            c,
            f,
            file,
            q.col,
            q.test,
            i,
            r,
        ) == (!deleted_at(c, f, file, i, r) && !missing_at(c, f, file, q.col, i, r) && is_one_of(
            values,
            number_at(c, f, file, q.col, i, r),
        )) by {
            assert(whole_numbers(c, f, file, q.col, i));
            int_is_integer(c, f, file, q.col, i, r);
            passes_among(values, number_at(c, f, file, q.col, i, r));
        }
        assert forall|i: int, r: int|
            0 <= i < n && 0 <= r < f.row_groups@[i].row_count && q.test.misses(
                f.zone(i, q.col, false),
            ) implies !#[trigger] counts(c, f, file, q.col, q.test, i, r) by {
            assert(bounds_hold(c, f, file, q.col, i));
            assert(whole_numbers(c, f, file, q.col, i));
            int_is_integer(c, f, file, q.col, i, r);
            let x = number_at(c, f, file, q.col, i, r);
            if counts(c, f, file, q.col, q.test, i, r) {
                let k = choose|k: int|
                    0 <= k < values.len() && (#[trigger] values[k]) as int == (match x {
                        Number::Int(v) => v,
                        Number::Real(v) => crate::double::trunc_i64(v),
                    });
                extremes_bound(values, k);
            }
        }
        assert forall|i: int, r: int| 0 <= i < n && 0 <= r < f.row_groups@[i].row_count implies kind(
            rows_before(f.row_groups@, i) + r,
        ) == #[trigger] counts(c, f, file, q.col, q.test, i, r) by {
            in_each_group(f, i, r);
        }
        scan_lists(q, c, f, file, n, kind);
        let found = q.scan(c, f, file, n)->Ok_0;
        same_list(found, all, f.total_rows(), kind);
        if let Some(m) = limit {
            q.law_limit_is_prefix(c, f, file, m as int, n);
            assert(in_query(f, col, values, limit) == QuerySeq { max: m as int, ..q });
            assert(up_to(all, limit) =~= all.take(if all.len() <= m {
                all.len() as int
            } else {
                m as int
            }));
        }
    }
}

/// Integers of a column are within the range of integers, and its kind tells integers from doubles.
pub(crate) proof fn int_is_integer<C: ColumnCodec>(
    c: C,
    f: V4Footer,
    file: Seq<u8>,
    col: int,
    i: int,
    r: int,
)
    requires
        whole_numbers(c, f, file, col, i),
        0 <= r < f.row_groups@[i].row_count,
    ensures
        number_at(c, f, file, col, i, r) matches Number::Int(v) ==> is_int(f.schema.kind(col))
            && i64::MIN <= v <= i64::MAX,
        number_at(c, f, file, col, i, r) is Real ==> !is_int(f.schema.kind(col)),
{
}

/// The numbers between the smallest and the largest of some numbers are bounded by them.
pub(crate) proof fn extremes_bound(values: Seq<i64>, k: int)
    requires
        0 <= k < values.len(),
    ensures
        least(values) <= values[k] <= greatest(values),
    decreases values.len(),
{
    if values.len() > 1 {
        let d = values.drop_last();
        if k < d.len() {
            extremes_bound(d, k);
            assert(d[k] == values[k]);
        } else {
            extremes_bound(d, 0);
        }
    }
}

/// A number passes the test for some integers where it is one of them.
pub(crate) proof fn passes_among(values: Seq<i64>, x: Number)
    requires
        x matches Number::Int(v) ==> i64::MIN <= v <= i64::MAX,
    ensures
        accepts(in_test(values), x) == is_one_of(values, x),
{
    let w = match x {
        Number::Int(v) => v,
        Number::Real(v) => crate::double::trunc_i64(v),
    };
    assert(i64::MIN <= w <= i64::MAX);
    assert(accepts(in_test(values), x) == values.contains(w as i64));
    if values.contains(w as i64) {
        let k = choose|k: int| 0 <= k < values.len() && values[k] == w as i64;
        assert(values[k] as int == w);
    }
    if is_one_of(values, x) {
        let k = choose|k: int| 0 <= k < values.len() && (#[trigger] values[k]) as int == w;
        assert(values[k] == w as i64);
    }
}

/// There is one list of the rows of a kind.
pub(crate) proof fn same_list(a: Seq<usize>, b: Seq<usize>, n: int, kind: spec_fn(int) -> bool)
    requires
        lists(a, n, kind),
        lists(b, n, kind),
        n <= usize::MAX,
    ensures
        a == b,
{
    assert forall|x: usize| a.contains(x) == b.contains(x) by {
        if a.contains(x) {
            let k = choose|k: int| 0 <= k < a.len() && a[k] == x;
            assert(a[k] < n && kind(a[k] as int));
            assert(kind(x as int));
        }
        if b.contains(x) {
            let k = choose|k: int| 0 <= k < b.len() && b[k] == x;
            assert(b[k] < n && kind(b[k] as int));
            assert(kind(x as int));
        }
    }
    crate::order::ascending_unique(a, b);
}

/// The rows of the first `k` row groups that pass a test, up to a limit.
pub(crate) open spec fn picked(f: V4Footer, hit: spec_fn(int, int) -> bool, max: int, k: int) -> Seq<usize>
    decreases k,
{
    if k <= 0 {
        Seq::empty()
    } else {
        select(
            |r: int| hit(k - 1, r),
            f.row_groups@[k - 1].row_count as int,
            rows_before(f.row_groups@, k - 1),
            picked(f, hit, max, k - 1),
            max,
        )
    }
}

pub(crate) proof fn picked_lists(
    f: V4Footer,
    hit: spec_fn(int, int) -> bool,
    k: int,
    kind: spec_fn(int) -> bool,
)
    requires
        f.wf(),
        0 <= k <= f.row_groups@.len(),
        forall|i: int, r: int|
            0 <= i < k && 0 <= r < f.row_groups@[i].row_count ==> #[trigger] hit(i, r) == kind(
                rows_before(f.row_groups@, i) + r,
            ),
    ensures
        lists(picked(f, hit, usize::MAX as int, k), rows_before(f.row_groups@, k), kind),
        picked(f, hit, usize::MAX as int, k).len() <= rows_before(f.row_groups@, k),
    decreases k,
{
    if k > 0 {
        let i = k - 1;
        picked_lists(f, hit, i, kind);
        group_bounds(f, i);
        let here = |r: int| hit(i, r);
        let rows = f.row_groups@[i].row_count as int;
        let base = rows_before(f.row_groups@, i);
        assert forall|r: int| 0 <= r < rows implies #[trigger] here(r) == kind(base + r) by {
            assert(hit(i, r) == kind(base + r));
        }
        lists_grow(
            here,
            rows,
            base,
            picked(f, hit, usize::MAX as int, i),
            usize::MAX as int,
            kind,
        );
    }
}

proof fn picked_limited(f: V4Footer, hit: spec_fn(int, int) -> bool, m: int, k: int)
    requires
        0 <= m <= usize::MAX,
    ensures
        ({
            let all = picked(f, hit, usize::MAX as int, k);
            picked(f, hit, m, k) == all.take(min2(all.len() as int, m))
        }),
    decreases k,
{
    if k > 0 {
        picked_limited(f, hit, m, k - 1);
        law_select_limit(
            |r: int| hit(k - 1, r),
            f.row_groups@[k - 1].row_count as int,
            rows_before(f.row_groups@, k - 1),
            picked(f, hit, usize::MAX as int, k - 1),
            usize::MAX as int,
            m,
        );
    } else {
        assert(Seq::<usize>::empty().take(0) =~= Seq::empty());
    }
}

/// Rows that are picked up to a limit are the first rows of a kind.
pub(crate) proof fn picked_are_listed(
    f: V4Footer,
    hit: spec_fn(int, int) -> bool,
    limit: Option<usize>,
    all: Seq<usize>,
    kind: spec_fn(int) -> bool,
)
    requires
        f.wf(),
        lists(all, f.total_rows(), kind),
        forall|i: int, r: int|
            0 <= i < f.row_groups@.len() && 0 <= r < f.row_groups@[i].row_count ==> #[trigger] hit(
                i,
                r,
            ) == kind(rows_before(f.row_groups@, i) + r),
    ensures
        picked(f, hit, max_rows(limit), f.row_groups@.len() as int) == up_to(all, limit),
        all.len() <= f.total_rows(),
{
    let n = f.row_groups@.len() as int;
    picked_lists(f, hit, n, kind);
    same_list(picked(f, hit, usize::MAX as int, n), all, f.total_rows(), kind);
    picked_limited(f, hit, max_rows(limit), n);
    assert(up_to(all, limit) =~= all.take(min2(all.len() as int, max_rows(limit))));
}

/// A checked selection that does not fail is a selection.
pub(crate) proof fn checked_is_select(
    a: spec_fn(int) -> Option<bool>,
    b: spec_fn(int) -> bool,
    n: int,
    base: int,
    acc: Seq<usize>,
    max: int,
)
    requires
        forall|r: int| 0 <= r < n ==> #[trigger] a(r) == Some(b(r)),
    ensures
        crate::select::select_checked(a, n, base, acc, max) == Some(select(b, n, base, acc, max)),
    decreases n,
{
    if n > 0 {
        checked_is_select(a, b, n - 1, base, acc, max);
        assert(a(n - 1) == Some(b(n - 1)));
    }
}

} // verus!
