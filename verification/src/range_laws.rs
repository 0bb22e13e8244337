//! A range scan that gives identifiers gives those of the rows that the range scan finds.

use vstd::prelude::*;

use crate::bytes::{bit, bitmap_len, i64_le, packed_value, signed};
use crate::codec::ColumnCodec;
use crate::column::ColumnSeq;
use crate::double::{le, F64};
use crate::group::{group_of, id_at, id_section, stored_group, tail, walk, window, GroupSeq};
use crate::ids::{ids_upto, load, top_id};
use crate::model::{
    is_float, is_int, rows_before, rows_before_monotonic, ColumnType, OnDemandSchema, ScanError, V4Footer, ZoneMap,
    COL_ENCODING_BITPACK, COL_ENCODING_PLAIN, RG_COMPRESS_NONE,
};
use crate::numeric::{
    all_fast, encoding_of, f64_le, fast_group, min2, num_rows, packed_numbers, range_query, range_test,
    tag_len, NumSeq, QuerySeq, TestSeq,
};
use crate::range_ids::{header_misses, id_query, ids_of, IdQuerySeq};
use crate::scan_laws::{group_bounds, law_zone_misses_ints, law_zone_misses_reals};
use crate::select::select;
use crate::set_laws::select_agrees;
use crate::storage::OnDemandStorage;

verus! {

/// Where the walk over the columns of a body finds a column.
pub open spec fn walked_to<C: ColumnCodec>(
    c: C,
    schema: OnDemandSchema,
    g: GroupSeq,
    rows: int,
    col: int,
) -> Result<Option<int>, ScanError> {
    let bm = bitmap_len(rows);
    walk(c, schema, g.version >= 1, g.body, bm, 0, id_section(rows, g.ids) + bm, col)
}

/// Whether packed numbers are those that decoding the column gives.
pub open spec fn packed_right(rows: int, data: Seq<u8>, v: Seq<i64>) -> bool {
    packed_numbers(rows, data) matches Some((src, n)) ==> {
        &&& n == min2(v.len() as int, rows)
        &&& src matches NumSeq::Packed { packed, width, min } && forall|j: int|
            0 <= j < n ==> #[trigger] packed_value(packed, width, min, j) == Some(v[j])
    }
}

/// Whether the header of a column tells the truth about decoded integers.
pub open spec fn header_right(encoding: u8, data: Seq<u8>, test: TestSeq, v: Seq<i64>) -> bool {
    match header_misses(encoding, data, test.low_i, test.high_i) {
        Err(_) => false,
        Ok(miss) => miss ==> forall|j: int|
            0 <= j < v.len() ==> !#[trigger] test.accepts_int(v[j] as int),
    }
}

/// Whether a column of numbers is stored as it should be: plain with at least one byte of numbers,
/// or coded so that its header, its packed fields and what decoding gives agree.
pub open spec fn sound_values<C: ColumnCodec>(
    c: C,
    kind: ColumnType,
    version: u8,
    rows: int,
    column: Seq<u8>,
    test: TestSeq,
) -> bool {
    let data = tail(column, tag_len(version));
    let encoding = encoding_of(version, column);
    &&& column.len() > tag_len(version)
    &&& if encoding == COL_ENCODING_PLAIN {
        data.len() > 8
    } else {
        match c.decoded(version >= 1, column, kind) {
            Some((ColumnSeq::Int64(v), _)) => {
                &&& is_int(kind)
                &&& header_right(encoding, data, test, v)
                &&& encoding == COL_ENCODING_BITPACK ==> packed_right(rows, data, v)
            },
            Some((ColumnSeq::Float64(v), _)) => !is_int(kind),
            _ => false,
        }
    }
}

/// Whether row group `i` is stored as it should be: with a deletion bitmap, an identifier for each
/// row, its columns one after the other, the one looked at where its place is on record, and all rows
/// deleted where none is said to be left.
pub open spec fn sound_numbers<C: ColumnCodec>(
    c: C,
    f: V4Footer,
    file: Seq<u8>,
    col: int,
    test: TestSeq,
    i: int,
) -> bool {
    let meta = f.row_groups@[i];
    let rows = meta.row_count as int;
    let bm = bitmap_len(rows);
    &&& group_of(c, meta, file) matches Ok(g) && window(g.body, id_section(rows, g.ids), bm) matches Some(
        d,
    ) && walked_to(c, f.schema, g, rows, col) matches Ok(Some(p)) && {
        let on_record = g.flag == RG_COMPRESS_NONE && f.rcix(i, col) is Some;
        &&& forall|r: int| 0 <= r < rows ==> #[trigger] id_at(g.body, meta.min_id, g.ids, r) is Some
        &&& meta.live() == 0 ==> forall|r: int| 0 <= r < rows ==> #[trigger] bit(d, r)
        &&& walk(
            c,
            f.schema,
            g.version >= 1,
            g.body,
            bm,
            col,
            p,
            f.schema.columns@.len() as int,
        ) is Ok
        &&& on_record ==> f.rcix(i, col) == Some(p)
        &&& sound_values(
            c,
            f.schema.kind(col),
            g.version,
            rows,
            tail(g.body, p + bm),
            test,
        )
    }
}

/// Whether a number lies within the bounds of a zone map.
pub open spec fn within(z: ZoneMap, src: NumSeq, r: int) -> bool {
    match src {
        NumSeq::PlainInt(s) => !z.is_float && z.min_bits <= i64_le(s, r * 8) <= z.max_bits,
        NumSeq::PlainReal(s) => z.is_float && le(z.low(), f64_le(s, r * 8)) && le(
            f64_le(s, r * 8),
            z.high(),
        ),
        NumSeq::Packed { packed, width, min } => packed_value(packed, width, min, r) matches Some(v)
            ==> !z.is_float && z.min_bits <= v <= z.max_bits,
        NumSeq::Ints(v) => !z.is_float && z.min_bits <= v[r] <= z.max_bits,
        NumSeq::Reals(v) => z.is_float && le(z.low(), v[r]) && le(v[r], z.high()),
        NumSeq::Bits(_) => true,
    }
}

/// Whether the bounds of the zone map of row group `i` hold for numbers that are read in place.
pub open spec fn sound_zone(f: V4Footer, file: Seq<u8>, col: int, ints: bool, i: int) -> bool {
    let meta = f.row_groups@[i];
    let rows = meta.row_count as int;
    let body = tail(file.subrange(meta.offset as int, meta.offset + meta.data_size), 32);
    let q = QuerySeq {
        col,
        bits: false,
        ints,
        packed: true,
        test: range_test(F64 { bits: 0 }, F64 { bits: 0 }),
        max: 0,
    };
    fast_group(f, file, col, ints, i) ==> match (
        f.zone(i, col, false),
        q.in_place(rows, tail(body, f.rcix(i, col)->0 + bitmap_len(rows))),
    ) {
        (Some(z), Some((src, n))) => forall|r: int| 0 <= r < n ==> #[trigger] within(z, src, r),
        _ => true,
    }
}

/// The integers that decoding a column gives.
pub open spec fn decoded_ints<C: ColumnCodec>(c: C, version: u8, column: Seq<u8>, kind: ColumnType) -> Seq<i64> {
    match c.decoded(version >= 1, column, kind) {
        Some((ColumnSeq::Int64(v), _)) => v,
        _ => Seq::empty(),
    }
}

pub(crate) proof fn walk_fits<C: ColumnCodec>(
    c: C,
    schema: OnDemandSchema,
    tagged: bool,
    body: Seq<u8>,
    bm: int,
    from: int,
    pos: int,
    to: int,
)
    ensures
        walk(c, schema, tagged, body, bm, from, pos, to) matches Ok(Some(p)) ==> p + bm
            <= body.len(),
    decreases to - from,
{
    if pos + bm <= body.len() && from < to {
        if let Some(n) = c.extent(tagged, tail(body, pos + bm), schema.kind(from)) {
            walk_fits(c, schema, tagged, body, bm, from + 1, pos + bm + n, to);
        }
    }
}

/// The two kinds of range scan find the same rows in a column that has been reached.
proof fn same_rows_reached<C: ColumnCodec>(
    q: QuerySeq,
    iq: IdQuerySeq,
    c: C,
    kind: ColumnType,
    version: u8,
    rows: int,
    del: Option<Seq<u8>>,
    nulls: Seq<u8>,
    column: Seq<u8>,
)
    requires
        0 <= rows,
        iq == (IdQuerySeq { col: q.col, ints: q.ints, test: q.test }),
        q.test.among is None,
        q.ints == is_int(kind),
        !q.bits,
        sound_values(c, kind, version, rows, column, q.test),
    ensures
        q.decode_hits(c, kind, version, rows, del, nulls, column) matches Ok(Some((hit, n))) && n
            <= rows && iq.reached(c, kind, version, rows, del, nulls, column) == Ok::<
            Seq<usize>,
            ScanError,
        >(select(hit, n, 0, Seq::empty(), usize::MAX as int)),
{
    let (hit, n) = q.decode_hits(c, kind, version, rows, del, nulls, column)->Ok_0->0;
    let data = tail(column, tag_len(version));
    let encoding = encoding_of(version, column);
    let none = Seq::<usize>::empty();
    let max = usize::MAX as int;
    if encoding == COL_ENCODING_PLAIN {
        let (src, m) = crate::numeric::plain_numbers(q.ints, rows, data);
        assert(hit == num_rows(src, q.test, del, Some(nulls)));
    } else if q.ints {
        let v = decoded_ints(c, version, column, kind);
        if header_misses(encoding, data, q.test.low_i, q.test.high_i) == Ok::<bool, ScanError>(
            true,
        ) {
            assert forall|r: int| 0 <= r < n implies !#[trigger] hit(r) by {
                assert(!q.test.accepts_int(v[r] as int));
            }
            select_agrees(hit, 0, hit, n, 0, none, max);
        }
    }
}

/// The two kinds of range scan find the same rows in a row group.
#[verifier::spinoff_prover]
proof fn same_rows_in_group<C: ColumnCodec>(
    q: QuerySeq,
    iq: IdQuerySeq,
    c: C,
    f: V4Footer,
    file: Seq<u8>,
    i: int,
)
    requires
        0 <= i < f.row_groups@.len(),
        f.row_groups@[i].row_count > 0,
        iq == (IdQuerySeq { col: q.col, ints: q.ints, test: q.test }),
        q.test.among is None,
        !q.bits,
        q.packed,
        q.ints == is_int(f.schema.kind(q.col)),
        sound_numbers(c, f, file, q.col, q.test, i),
        !q.test.misses(f.zone(i, q.col, false)),
    ensures
        q.hits(c, f, file, i) matches Ok(Some((hit, n))) && n <= f.row_groups@[i].row_count
            && iq.rows_in(c, f, group_of(c, f.row_groups@[i], file)->Ok_0, i) == Ok::<
            Seq<usize>,
            ScanError,
        >(select(hit, n, 0, Seq::empty(), usize::MAX as int)),
{
    let meta = f.row_groups@[i];
    let rows = meta.row_count as int;
    let bm = bitmap_len(rows);
    let g = group_of(c, meta, file)->Ok_0;
    let d = window(g.body, id_section(rows, g.ids), bm)->0;
    let del = if meta.deletion_count > 0 {
        Some(d)
    } else {
        None
    };
    let p = walked_to(c, f.schema, g, rows, q.col)->Ok_0->0;
    let on_record = g.flag == RG_COMPRESS_NONE && f.rcix(i, q.col) is Some;
    let nulls = g.body.subrange(p, p + bm);
    let column = tail(g.body, p + bm);
    let kind = f.schema.kind(q.col);
    let data = tail(column, tag_len(g.version));
    let encoding = encoding_of(g.version, column);
    walk_fits(
        c,
        f.schema,
        g.version >= 1,
        g.body,
        bm,
        0,
        id_section(rows, g.ids) + bm,
        q.col,
    );
    if !(on_record && encoding == COL_ENCODING_PLAIN) {
        same_rows_reached(q, iq, c, kind, g.version, rows, del, nulls, column);
    }
    if on_record && encoding != COL_ENCODING_PLAIN {
        if let Some((src, n)) = q.direct(g.version, rows, column) {
            let hit = num_rows(src, q.test, del, Some(nulls));
            assert(packed_numbers(rows, data) == Some((src, n)));
            let v = decoded_ints(c, g.version, column, kind);
            let decoded = num_rows(NumSeq::Ints(v), q.test, del, Some(nulls));
            let (packed, width, min) = match src {
                NumSeq::Packed { packed, width, min } => (packed, width, min),
                _ => (Seq::empty(), 0, 0),
            };
            assert forall|r: int| 0 <= r < n implies #[trigger] decoded(r) == hit(r) by {
                assert(packed_value(packed, width, min, r) == Some(v[r]));
            }
            select_agrees(decoded, n, hit, n, 0, Seq::empty(), usize::MAX as int);
            if header_misses(encoding, data, q.test.low_i, q.test.high_i) == Ok::<
                bool,
                ScanError,
            >(true) {
                assert forall|r: int| 0 <= r < n implies !#[trigger] hit(r) by {
                    assert(packed_value(packed, width, min, r) == Some(v[r]));
                    assert(!q.test.accepts_int(v[r] as int));
                }
                select_agrees(hit, 0, hit, n, 0, Seq::empty(), usize::MAX as int);
            }
        }
    }
}

/// A selection behind other rows is the same selection, counted from another row.
proof fn select_moves(hit: spec_fn(int) -> bool, n: int, base: int, acc: Seq<usize>, max: int)
    requires
        0 <= base,
        n <= 0 || base + n <= usize::MAX,
        n <= 0 || acc.len() + n <= max,
        max <= usize::MAX,
    ensures
        ({
            let here = select(hit, n, 0, Seq::empty(), usize::MAX as int);
            let there = select(hit, n, base, acc, max);
            &&& there.len() == acc.len() + here.len()
            &&& here.len() <= (if n > 0 {
                n
            } else {
                0
            })
            &&& forall|j: int| 0 <= j < acc.len() ==> #[trigger] there[j] == acc[j]
            &&& forall|j: int|
                0 <= j < here.len() ==> #[trigger] here[j] < n && there[acc.len() + j] == base
                    + here[j]
        }),
    decreases n,
{
    if n > 0 {
        select_moves(hit, n - 1, base, acc, max);
        let before = select(hit, n - 1, 0, Seq::empty(), usize::MAX as int);
        let here = select(hit, n, 0, Seq::empty(), usize::MAX as int);
        let there = select(hit, n, base, acc, max);
        assert forall|j: int| 0 <= j < here.len() implies #[trigger] here[j] < n && there[acc.len()
            + j] == base + here[j] by {
            if j < before.len() {
                assert(before[j] == here[j]);
            }
        }
    }
}

/// Where each row has an identifier, there is one for each of some rows.
proof fn ids_of_each(rows: Seq<usize>, body: Seq<u8>, min_id: u64, ids: u8, n: int)
    requires
        forall|k: int| 0 <= k < rows.len() ==> #[trigger] rows[k] < n,
        forall|r: int| 0 <= r < n ==> #[trigger] id_at(body, min_id, ids, r) is Some,
    ensures
        ids_of(rows, body, min_id, ids).len() == rows.len(),
        forall|k: int|
            0 <= k < rows.len() ==> id_at(body, min_id, ids, #[trigger] rows[k] as int) == Some(
                ids_of(rows, body, min_id, ids)[k] as int,
            ),
    decreases rows.len(),
{
    if rows.len() > 0 {
        let d = rows.drop_last();
        assert forall|k: int| 0 <= k < d.len() implies #[trigger] d[k] < n by {
            assert(rows[k] < n);
        }
        ids_of_each(d, body, min_id, ids, n);
        let last = rows.len() - 1;
        assert(rows[last] < n);
        assert(id_at(body, min_id, ids, rows[last] as int) is Some);
        assert forall|k: int| 0 <= k < rows.len() implies id_at(
            body,
            min_id,
            ids,
            #[trigger] rows[k] as int,
        ) == Some(ids_of(rows, body, min_id, ids)[k] as int) by {
            if k < last {
                assert(d[k] == rows[k]);
            }
        }
    }
}

/// Whether row group `i` holds a row.
pub open spec fn lies_in(f: V4Footer, i: int, row: int) -> bool {
    0 <= i < f.row_groups@.len() && rows_before(f.row_groups@, i) <= row < rows_before(
        f.row_groups@,
        i + 1,
    )
}

/// Whether a row of the store has an identifier.
pub open spec fn row_has_id<C: ColumnCodec>(
    c: C,
    f: V4Footer,
    file: Seq<u8>,
    row: usize,
    id: u64,
) -> bool {
    exists|i: int| #[trigger]
        lies_in(f, i, row as int) && (group_of(c, f.row_groups@[i], file) matches Ok(g) && id_at(
            g.body,
            f.row_groups@[i].min_id,
            g.ids,
            row - rows_before(f.row_groups@, i),
        ) == Some(id as int))
}

/// Whether identifiers are those of some rows, one for each, in their order.
pub open spec fn ids_of_rows<C: ColumnCodec>(
    c: C,
    f: V4Footer,
    file: Seq<u8>,
    rows: Seq<usize>,
    ids: Seq<u64>,
) -> bool {
    &&& rows.len() == ids.len()
    &&& forall|k: int| 0 <= k < rows.len() ==> row_has_id(c, f, file, #[trigger] rows[k], ids[k])
}

/// A scan in turn and a scan for identifiers find the same rows.
proof fn same_rows_scanned<C: ColumnCodec>(
    q: QuerySeq,
    iq: IdQuerySeq,
    c: C,
    f: V4Footer,
    file: Seq<u8>,
    k: int,
)
    requires
        f.wf(),
        0 <= k <= f.row_groups@.len(),
        iq == (IdQuerySeq { col: q.col, ints: q.ints, test: q.test }),
        q.test.among is None,
        !q.bits,
        q.packed,
        q.max == usize::MAX,
        q.ints == is_int(f.schema.kind(q.col)),
        forall|i: int|
            0 <= i < k && f.row_groups@[i].row_count > 0 ==> #[trigger] sound_numbers(
                c,
                f,
                file,
                q.col,
                q.test,
                i,
            ),
    ensures
        q.scan(c, f, file, k) matches Ok(v) && v.len() <= rows_before(f.row_groups@, k) && (iq.scan(
            c,
            f,
            file,
            k,
        ) matches Ok(ids) && ids_of_rows(c, f, file, v, ids)),
    decreases k,
{
    if k > 0 {
        let i = k - 1;
        same_rows_scanned(q, iq, c, f, file, i);
        group_bounds(f, i);
        let acc = q.scan(c, f, file, i)->Ok_0;
        let ids = iq.scan(c, f, file, i)->Ok_0;
        let meta = f.row_groups@[i];
        let rows = meta.row_count as int;
        let base = rows_before(f.row_groups@, i);
        q.law_group_selects(c, f, file, i, acc);
        if acc.len() >= q.max {
            assert(rows == 0);
        }
        if rows > 0 && !q.test.misses(f.zone(i, q.col, false)) {
            assert(sound_numbers(c, f, file, q.col, q.test, i));
            same_rows_in_group(q, iq, c, f, file, i);
            let (hit, n) = q.hits(c, f, file, i)->Ok_0->0;
            let g = group_of(c, meta, file)->Ok_0;
            let here = select(hit, n, 0, Seq::empty(), usize::MAX as int);
            select_moves(hit, n, base, acc, q.max);
            let v = q.scan(c, f, file, k)->Ok_0;
            if meta.live() == 0 {
                let d = window(g.body, id_section(rows, g.ids), bitmap_len(rows))->0;
                assert forall|r: int| 0 <= r < n implies !#[trigger] hit(r) by {
                    assert(bit(d, r));
                }
                if n > 0 {
                    select_agrees(hit, 0, hit, n, base, acc, q.max);
                }
                assert(v == acc);
                assert(ids + Seq::<u64>::empty() =~= ids);
            } else {
                assert forall|j: int| 0 <= j < here.len() implies #[trigger] here[j] < rows by {}
                ids_of_each(here, g.body, meta.min_id, g.ids, rows);
                let more = ids_of(here, g.body, meta.min_id, g.ids);
                assert forall|j: int| 0 <= j < v.len() implies row_has_id(
                    c,
                    f,
                    file,
                    #[trigger] v[j],
                    (ids + more)[j],
                ) by {
                    if j < acc.len() {
                        assert(v[j] == acc[j]);
                        assert(row_has_id(c, f, file, acc[j], ids[j]));
                    } else {
                        let m = j - acc.len();
                        assert(here[m] < n);
                        assert(v[acc.len() + m] == base + here[m]);
                        assert(lies_in(f, i, v[j] as int));
                    }
                }
            }
        } else {
            assert(ids + Seq::<u64>::empty() =~= ids);
        }
    }
}

/// A number within the bounds of a zone map that rules a range out does not lie in the range.
pub(crate) proof fn ruled_out(low: F64, high: F64, z: ZoneMap, src: NumSeq, r: int)
    requires
        range_test(low, high).misses(Some(z)),
        within(z, src, r),
        !(src is Bits),
    ensures
        !src.hit(range_test(low, high), r),
{
    match src {
        NumSeq::PlainInt(b) => {
            law_zone_misses_ints(low, high, z, i64_le(b, r * 8));
        },
        NumSeq::PlainReal(b) => {
            law_zone_misses_reals(low, high, z, f64_le(b, r * 8));
        },
        NumSeq::Packed { packed, width, min } => {
            if let Some(v) = packed_value(packed, width, min, r) {
                law_zone_misses_ints(low, high, z, v as int);
            }
        },
        NumSeq::Ints(v) => {
            law_zone_misses_ints(low, high, z, v[r] as int);
        },
        NumSeq::Reals(v) => {
            law_zone_misses_reals(low, high, z, v[r]);
        },
        NumSeq::Bits(_) => {},
    }
}

/// Where the bounds of the zone maps hold, a scan in place finds the rows of a scan in turn.
#[verifier::spinoff_prover]
#[verifier::rlimit(30)]
pub(crate) proof fn in_place_is_in_turn<C: ColumnCodec>(
    q: QuerySeq,
    low: F64,
    high: F64,
    c: C,
    f: V4Footer,
    file: Seq<u8>,
    k: int,
)
    requires
        f.wf(),
        0 <= k <= f.row_groups@.len(),
        q.test == range_test(low, high),
        !q.bits,
        q.packed,
        q.max == usize::MAX,
        q.ints == is_int(f.schema.kind(q.col)),
        forall|i: int| 0 <= i < k ==> #[trigger] fast_group(f, file, q.col, q.ints, i),
        forall|i: int| 0 <= i < k ==> #[trigger] sound_zone(f, file, q.col, q.ints, i),
        forall|i: int|
            0 <= i < k && f.row_groups@[i].row_count > 0 ==> #[trigger] sound_numbers(
                c,
                f,
                file,
                q.col,
                q.test,
                i,
            ),
        forall|i: int|
            0 <= i < k && f.row_groups@[i].row_count > 0 ==> #[trigger] packed_whole(
                f,
                file,
                q.col,
                i,
            ),
    ensures
        q.scan(c, f, file, k) == Ok::<Seq<usize>, ScanError>(q.fast_scan(f, file, k)),
        q.fast_scan(f, file, k).len() <= rows_before(f.row_groups@, k),
    decreases k,
{
    if k > 0 {
        let i = k - 1;
        in_place_is_in_turn(q, low, high, c, f, file, i);
        group_bounds(f, i);
        let acc = q.fast_scan(f, file, i);
        let meta = f.row_groups@[i];
        let rows = meta.row_count as int;
        let bm = bitmap_len(rows);
        let base = rows_before(f.row_groups@, i);
        assert(fast_group(f, file, q.col, q.ints, i));
        assert(sound_zone(f, file, q.col, q.ints, i));
        let s = stored_group(meta, file)->Ok_0;
        let body = tail(s, 32);
        let o = f.rcix(i, q.col)->0;
        let del = if meta.deletion_count > 0 {
            Some(body.subrange(id_section(rows, s[30]), id_section(rows, s[30]) + bm))
        } else {
            None
        };
        let nulls = body.subrange(o, o + bm);
        let numbers = q.in_place(rows, tail(body, o + bm));
        if let Some((src, n)) = numbers {
            let hit = num_rows(src, q.test, del, Some(nulls));
            assert(n <= rows);
            if n > 0 {
                select_moves(hit, n, base, acc, q.max);
            }
            if q.test.misses(f.zone(i, q.col, false)) {
                let z = f.zone(i, q.col, false)->0;
                assert forall|r: int| 0 <= r < n implies !#[trigger] hit(r) by {
                    assert(within(z, src, r));
                    ruled_out(low, high, z, src, r);
                }
                if n > 0 {
                    select_agrees(hit, 0, hit, n, base, acc, q.max);
                }
            }
        }
        if rows > 0 && !q.test.misses(f.zone(i, q.col, false)) {
            assert(sound_numbers(c, f, file, q.col, q.test, i));
            assert(packed_whole(f, file, q.col, i));
            q.law_in_place_is_in_turn(c, f, file, i, acc);
        }
    }
}

/// Whether a packed column at its place on record has all of its fields.
pub open spec fn packed_whole(f: V4Footer, file: Seq<u8>, col: int, i: int) -> bool {
    let meta = f.row_groups@[i];
    let rows = meta.row_count as int;
    let body = tail(file.subrange(meta.offset as int, meta.offset + meta.data_size), 32);
    let column = tail(body, f.rcix(i, col)->0 + bitmap_len(rows));
    f.rcix(i, col) is Some && column.len() > 0 && column[0] == COL_ENCODING_BITPACK
        ==> packed_numbers(rows, tail(column, 1)) is Some
}

/// Whether row group `i` can be read and holds an identifier for each row and a deletion bitmap.
pub open spec fn ids_there<C: ColumnCodec>(c: C, f: V4Footer, file: Seq<u8>, i: int) -> bool {
    let meta = f.row_groups@[i];
    let rows = meta.row_count as int;
    group_of(c, meta, file) matches Ok(g) && window(g.body, id_section(rows, g.ids), bitmap_len(rows))
        is Some && forall|r: int|
        0 <= r < rows ==> #[trigger] id_at(g.body, meta.min_id, g.ids, r) is Some
}

/// Where each row of a row group has an identifier, reading them gives one for each.
proof fn ids_upto_each(body: Seq<u8>, min_id: u64, ids: u8, k: int)
    requires
        0 <= k,
        forall|r: int| 0 <= r < k ==> #[trigger] id_at(body, min_id, ids, r) is Some,
    ensures
        ids_upto(body, min_id, ids, k).1,
        ids_upto(body, min_id, ids, k).0.len() == k,
        forall|r: int|
            0 <= r < k ==> #[trigger] id_at(body, min_id, ids, r) == Some(
                ids_upto(body, min_id, ids, k).0[r] as int,
            ),
    decreases k,
{
    if k > 0 {
        ids_upto_each(body, min_id, ids, k - 1);
        assert(id_at(body, min_id, ids, k - 1) is Some);
        let s = ids_upto(body, min_id, ids, k - 1).0;
        assert forall|r: int| 0 <= r < k implies #[trigger] id_at(body, min_id, ids, r) == Some(
            ids_upto(body, min_id, ids, k).0[r] as int,
        ) by {
            if r < k - 1 {
                assert(ids_upto(body, min_id, ids, k).0[r] == s[r]);
            }
        }
    }
}

/// Where each row of the store has an identifier, loading gives one for each, row by row.
#[verifier::spinoff_prover]
proof fn load_each<C: ColumnCodec>(c: C, f: V4Footer, file: Seq<u8>, k: int)
    requires
        f.wf(),
        0 <= k <= f.row_groups@.len(),
        forall|i: int|
            0 <= i < k && f.row_groups@[i].row_count > 0 ==> #[trigger] ids_there(c, f, file, i),
    ensures
        load(c, f, file, k).error is None,
        load(c, f, file, k).ids.len() == rows_before(f.row_groups@, k),
        forall|i: int, row: int|
            #![trigger lies_in(f, i, row)]
            i < k && lies_in(f, i, row) ==> id_at(
                group_of(c, f.row_groups@[i], file)->Ok_0.body,
                f.row_groups@[i].min_id,
                group_of(c, f.row_groups@[i], file)->Ok_0.ids,
                row - rows_before(f.row_groups@, i),
            ) == Some(load(c, f, file, k).ids[row] as int),
    decreases k,
{
    if k > 0 {
        let m = k - 1;
        load_each(c, f, file, m);
        group_bounds(f, m);
        let meta = f.row_groups@[m];
        let rows = meta.row_count as int;
        let before = load(c, f, file, m).ids;
        let ids = load(c, f, file, k).ids;
        let g = group_of(c, meta, file)->Ok_0;
        if rows > 0 {
            assert(ids_there(c, f, file, m));
            ids_upto_each(g.body, meta.min_id, g.ids, rows);
        }
        assert forall|i: int, row: int|
            #![trigger lies_in(f, i, row)]
            i < k && lies_in(f, i, row) implies id_at(
            group_of(c, f.row_groups@[i], file)->Ok_0.body,
            f.row_groups@[i].min_id,
            group_of(c, f.row_groups@[i], file)->Ok_0.ids,
            row - rows_before(f.row_groups@, i),
        ) == Some(ids[row] as int) by {
            if i < m {
                group_bounds(f, i);
                rows_before_monotonic(f.row_groups@, i + 1, m);
                assert(ids[row] == before[row]);
            } else {
                let s = ids_upto(g.body, meta.min_id, g.ids, rows).0;
                assert(ids == before + s);
                assert(ids[row] == s[row - rows_before(f.row_groups@, m)]);
            }
        }
    }
}

impl<C: ColumnCodec> OnDemandStorage<C> {
    /// Whether a column of numbers is stored as it should be in every row group.
    pub open spec fn sound_range(self, col_name: Seq<char>, low: F64, high: F64) -> bool {
        &&& self.footer matches Some(f) && f.schema.index_of(col_name) matches Some(col)
            && self.file matches Some(file) && {
            let kind = f.schema.kind(col as int);
            &&& is_int(kind) || is_float(kind)
            &&& forall|i: int|
                0 <= i < f.row_groups@.len() && f.row_groups@[i].row_count > 0
                    ==> #[trigger] sound_numbers(
                    self.codec,
                    f,
                    file@,
                    col as int,
                    range_test(low, high),
                    i,
                )
            &&& forall|i: int|
                0 <= i < f.row_groups@.len() ==> #[trigger] sound_zone(
                    f,
                    file@,
                    col as int,
                    is_int(kind),
                    i,
                )
            &&& forall|i: int|
                0 <= i < f.row_groups@.len() && f.row_groups@[i].row_count > 0
                    ==> #[trigger] packed_whole(f, file@, col as int, i)
        }
    }

    /// A range scan that gives identifiers gives, one for each and in their order, the identifiers of
    /// the rows that the range scan without a limit gives.
    pub proof fn law_ids_of_range(self, col_name: Seq<char>, low: F64, high: F64)
        requires
            self.wf(),
            self.sound_range(col_name, low, high),
        ensures
            self.numeric_range(col_name, low, high, None) matches Ok(Some(rows)) && (self.range_ids(
                col_name,
                low,
                high,
            ) matches Ok(Some(ids)) && ids_of_rows(
                self.codec,
                self.footer->0,
                self.file->0@,
                rows,
                ids,
            )),
    {
        let f = self.footer->0;
        let file = self.file->0@;
        let col = f.schema.index_of(col_name)->0;
        let q = range_query(f, col, low, high, None);
        let iq = id_query(f, col, low, high);
        let n = f.row_groups@.len() as int;
        same_rows_scanned(q, iq, self.codec, f, file, n);
        if all_fast(f, file, q.col, q.ints) {
            in_place_is_in_turn(q, low, high, self.codec, f, file, n);
        }
    }

    /// A range scan that gives identifiers gives what a read of the same rows by their numbers gives,
    /// one for each and in their order: the identifiers `ids` of the rows `v` that the range scan
    /// finds, each as a signed number, are `read_ids_by_indices(v)`. The identifiers in memory, if
    /// any, are those of the file, and one is left for the next row.
    #[verifier::spinoff_prover]
    pub proof fn law_ids_of_range_are_read(self, col_name: Seq<char>, low: F64, high: F64)
        requires
            self.wf(),
            self.sound_range(col_name, low, high),
            self.ids_on_demand() == load(
                self.codec,
                self.footer->0,
                self.file->0@,
                self.footer->0.row_groups@.len() as int,
            ).ids,
            top_id(self.ids_on_demand()) < u64::MAX,
        ensures
            self.numeric_range(col_name, low, high, None) matches Ok(Some(v)) && (self.range_ids(
                col_name,
                low,
                high,
            ) matches Ok(Some(ids)) && (self.ids_read(v) matches Ok(read) && read.len() == ids.len()
                && forall|k: int| 0 <= k < ids.len() ==> #[trigger] read[k] == signed(
                ids[k] as int,
            ))),
    {
        self.law_ids_of_range(col_name, low, high);
        let f = self.footer->0;
        let file = self.file->0@;
        let n = f.row_groups@.len() as int;
        let col = f.schema.index_of(col_name)->0;
        let v = self.numeric_range(col_name, low, high, None)->Ok_0->0;
        let ids = self.range_ids(col_name, low, high)->Ok_0->0;
        assert forall|i: int| 0 <= i < n && f.row_groups@[i].row_count > 0 implies #[trigger] ids_there(
            self.codec,
            f,
            file,
            i,
        ) by {
            assert(sound_numbers(self.codec, f, file, col as int, range_test(low, high), i));
        }
        load_each(self.codec, f, file, n);
        let stored = load(self.codec, f, file, n).ids;
        assert(self.demand_result() is Ok);
        let read = self.ids_read(v)->Ok_0;
        assert forall|k: int| 0 <= k < ids.len() implies #[trigger] read[k] == signed(
            ids[k] as int,
        ) by {
            assert(row_has_id(self.codec, f, file, v[k], ids[k]));
            let i = choose|i: int| #[trigger]
                lies_in(f, i, v[k] as int) && (group_of(self.codec, f.row_groups@[i], file) matches Ok(
                    g,
                ) && id_at(
                    g.body,
                    f.row_groups@[i].min_id,
                    g.ids,
                    v[k] - rows_before(f.row_groups@, i),
                ) == Some(ids[k] as int));
            assert(lies_in(f, i, v[k] as int));
            rows_before_monotonic(f.row_groups@, i + 1, n);
            assert(stored[v[k] as int] == ids[k]);
        }
    }
}

} // verus!
