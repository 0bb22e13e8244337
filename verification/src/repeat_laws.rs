//! A conditional update that is made twice writes nothing the second time.

use vstd::prelude::*;

use crate::bytes::{bitmap_len, i64_le, u64_le};
use crate::codec::ColumnCodec;
use crate::double::F64;
use crate::group::{id_section, stored_group, tail, window};
use crate::model::{
    zone_from, ColumnType, RowGroupMeta, ScanError, V4Footer, ZoneMap, COL_ENCODING_BITPACK,
    COL_ENCODING_PLAIN,
};
use crate::numeric::{encoding_of, f64_le, num_rows, packed_numbers, plain_numbers, NumSeq};
use crate::select::select_adds;
use crate::set_laws::select_agrees;
use crate::storage::OnDemandStorage;
use crate::update::{
    differs, overwritten, patched, widened_maps, write_all, zone_pos, zones, Effect,
    Found, GroupUpdate, RangeUpdateSeq,
};

verus! {

/// How many bytes of a column a conditional update looks at to find its rows.
pub open spec fn looked_at<C: ColumnCodec>(
    q: RangeUpdateSeq,
    c: C,
    kind: ColumnType,
    version: u8,
    rows: int,
    col: Seq<u8>,
) -> int {
    let encoding = encoding_of(version, col);
    let payload = tail(col, 1);
    if encoding == COL_ENCODING_PLAIN {
        let (_, n) = plain_numbers(q.ints, rows, payload);
        9 + n * 8
    } else if q.ints && encoding == COL_ENCODING_BITPACK {
        18 + bitmap_len(u64_le(payload, 0) * payload[8])
    } else {
        c.extent(true, col, kind)->0 as int
    }
}

/// Whether decoding a column looks at nothing behind its first `n` bytes.
pub open spec fn decodes_ahead<C: ColumnCodec>(c: C, kind: ColumnType, col: Seq<u8>, n: int) -> bool {
    forall|other: Seq<u8>|
        other.len() == col.len() && (forall|j: int|
            0 <= j < n && j < col.len() ==> other[j] == col[j])
            ==> #[trigger] c.decoded(true, other, kind) == c.decoded(true, col, kind)
}

/// Bytes that agree as far as an update looks give the same rows.
proof fn same_rows_found<C: ColumnCodec>(
    q: RangeUpdateSeq,
    c: C,
    kind: ColumnType,
    version: u8,
    rows: int,
    del: Option<Seq<u8>>,
    nulls: Seq<u8>,
    col: Seq<u8>,
    other: Seq<u8>,
)
    requires
        0 <= rows,
        other.len() == col.len() > 0,
        looked_at(q, c, kind, version, rows, col) > 0,
        forall|j: int|
            0 <= j < looked_at(q, c, kind, version, rows, col) && j < col.len() ==> other[j]
                == col[j],
        q.matching(c, kind, version, rows, del, nulls, col) is Rows,
        encoding_of(version, col) != COL_ENCODING_PLAIN && !(q.ints && encoding_of(version, col)
            == COL_ENCODING_BITPACK) ==> decodes_ahead(
            c,
            kind,
            col,
            looked_at(q, c, kind, version, rows, col),
        ),
    ensures
        q.matching(c, kind, version, rows, del, nulls, other) == q.matching(
            c,
            kind,
            version,
            rows,
            del,
            nulls,
            col,
        ),
{
    let encoding = encoding_of(version, col);
    let payload = tail(col, 1);
    let second = tail(other, 1);
    assert(other[0] == col[0]);
    assert(encoding_of(version, other) == encoding);
    if encoding == COL_ENCODING_PLAIN {
        let (src, n) = plain_numbers(q.ints, rows, payload);
        let (src2, n2) = plain_numbers(q.ints, rows, second);
        assert(forall|j: int| 0 <= j < 8 + n * 8 && j < payload.len() ==> second[j] == payload[j]);
        assert(u64_le(second, 0) == u64_le(payload, 0));
        assert(n2 == n);
        let words = tail(payload, 8);
        let words2 = tail(second, 8);
        let a = num_rows(src, q.test, del, Some(nulls));
        let b = num_rows(src2, q.test, del, Some(nulls));
        assert forall|r: int| 0 <= r < n implies #[trigger] a(r) == b(r) by {
            assert(r * 8 + 8 <= words.len());
            assert forall|j: int| r * 8 <= j < r * 8 + 8 implies words2[j] == words[j] by {
                assert(words[j] == payload[j + 8]);
                assert(words2[j] == second[j + 8]);
            }
            assert(i64_le(words2, r * 8) == i64_le(words, r * 8));
            assert(f64_le(words2, r * 8) == f64_le(words, r * 8));
        }
        select_agrees(a, n, b, n, 0, Seq::empty(), usize::MAX as int);
    } else if q.ints && encoding == COL_ENCODING_BITPACK {
        let len = bitmap_len(u64_le(payload, 0) * payload[8]);
        assert(forall|j: int| 0 <= j < 17 + len && j < payload.len() ==> second[j] == payload[j]);
        assert(u64_le(second, 0) == u64_le(payload, 0));
        assert(i64_le(second, 9) == i64_le(payload, 9));
        if 17 + len <= payload.len() {
            assert(second.subrange(17, 17 + len) =~= payload.subrange(17, 17 + len));
        }
        assert(packed_numbers(rows, second) == packed_numbers(rows, payload));
    } else {
        assert(c.decoded(true, other, kind) == c.decoded(true, col, kind));
    }
}

/// The first zone map of a column stays where that of another column changes.
proof fn zone_of_other_column(maps: Seq<ZoneMap>, k: int, z: ZoneMap, col: int, i: int)
    requires
        0 <= k < maps.len(),
        0 <= i,
        z.col_idx == maps[k].col_idx,
        maps[k].col_idx != col,
    ensures
        zone_from(maps.update(k, z), col, false, i) == zone_from(maps, col, false, i),
    decreases maps.len() - i,
{
    if i < maps.len() {
        zone_of_other_column(maps, k, z, col, i + 1);
    }
}

proof fn zone_pos_facts(maps: Seq<ZoneMap>, col: int, i: int)
    requires
        0 <= i,
    ensures
        zone_pos(maps, col, i) matches Some(k) ==> i <= k < maps.len() && maps[k].col_idx == col,
    decreases maps.len() - i,
{
    if i < maps.len() {
        zone_pos_facts(maps, col, i + 1);
    }
}

/// Whether a conditional update leaves alone what it reads of a row group that it writes to: the set
/// column lies behind the identifiers and the deletion bitmap, and the tested column before it or
/// behind its values. Decoding a column looks at its own bytes only.
pub open spec fn set_apart<C: ColumnCodec>(
    q: RangeUpdateSeq,
    c: C,
    f: V4Footer,
    file: Seq<u8>,
    i: int,
) -> bool {
    let meta = f.row_groups@[i];
    let rows = meta.row_count as int;
    let bm = bitmap_len(rows);
    let s = stored_group(meta, file)->Ok_0;
    let body = tail(s, 32);
    let w = f.rcix(i, q.where_col)->0;
    let o = f.rcix(i, q.set_col)->0;
    let kind = f.schema.kind(q.where_col);
    let col = tail(body, w + bm);
    let encoding = encoding_of(s[29], col);
    let n = looked_at(q, c, kind, s[29], rows, col);
    q.group(c, f, file, i) matches GroupUpdate::Assign(_, _, values) ==> {
        &&& id_section(rows, s[30]) + bm <= o
        &&& col.len() > 0
        &&& n > 0
        &&& w + bm + n <= o || o + bm + 9 + values.len() <= w
        &&& encoding != COL_ENCODING_PLAIN && !(q.ints && encoding == COL_ENCODING_BITPACK)
            ==> decodes_ahead(c, kind, col, n)
    }
}

/// Whether what an update needs of the catalogue is the same.
pub open spec fn same_catalogue(q: RangeUpdateSeq, f: V4Footer, g: V4Footer) -> bool {
    &&& g.schema == f.schema
    &&& g.row_groups == f.row_groups
    &&& g.col_offsets == f.col_offsets
    &&& forall|i: int|
        0 <= i ==> #[trigger] g.zone(i, q.where_col, false) == f.zone(i, q.where_col, false)
}

/// The bytes of a row group with those of the set column written.
pub open spec fn group_bytes<C: ColumnCodec>(
    q: RangeUpdateSeq,
    c: C,
    f: V4Footer,
    file: Seq<u8>,
    value: Seq<u8>,
    i: int,
) -> Seq<u8> {
    let meta = f.row_groups@[i];
    let s = file.subrange(meta.offset as int, meta.offset + meta.data_size);
    match q.group(c, f, file, i) {
        GroupUpdate::Assign(rows, at, values) => if differs(values, rows, value) {
            overwritten(s, at - meta.offset, patched(values, rows, value))
        } else {
            s
        },
        _ => s,
    }
}

/// What an update finds in a row group whose bytes are the same.
proof fn untouched_group<C: ColumnCodec>(
    q: RangeUpdateSeq,
    c: C,
    f: V4Footer,
    g: V4Footer,
    file: Seq<u8>,
    now: Seq<u8>,
    i: int,
)
    requires
        0 <= i,
        same_catalogue(q, f, g),
        now.len() == file.len(),
        ({
            let meta = f.row_groups@[i];
            meta.offset + meta.data_size <= file.len() ==> now.subrange(
                meta.offset as int,
                meta.offset + meta.data_size,
            ) == file.subrange(meta.offset as int, meta.offset + meta.data_size)
        }),
    ensures
        q.group(c, g, now, i) == q.group(c, f, file, i),
{
    assert(g.zone(i, q.where_col, false) == f.zone(i, q.where_col, false));
}

/// The rows that an update finds are rows that it has values for.
pub(crate) proof fn found_bound<C: ColumnCodec>(q: RangeUpdateSeq, c: C, f: V4Footer, file: Seq<u8>, i: int)
    ensures
        q.group(c, f, file, i) matches GroupUpdate::Assign(rows, at, values) ==> {
            let meta = f.row_groups@[i];
            &&& stored_group(meta, file) is Ok
            &&& at + values.len() <= meta.offset + meta.data_size
            &&& at >= meta.offset + 32
            &&& forall|k: int| 0 <= k < rows.len() ==> #[trigger] rows[k] * 8 + 8 <= values.len()
        },
{
    let meta = f.row_groups@[i];
    let rows = meta.row_count as int;
    let bm = bitmap_len(rows);
    if let GroupUpdate::Assign(found, at, values) = q.group(c, f, file, i) {
        let s = stored_group(meta, file)->Ok_0;
        let body = tail(s, 32);
        let w = f.rcix(i, q.where_col)->0;
        let nulls = window(body, w, bm)->0;
        let d = window(body, id_section(rows, s[30]), bm)->0;
        let del = if meta.deletion_count > 0 {
            Some(d)
        } else {
            None
        };
        let kind = f.schema.kind(q.where_col);
        let col = tail(body, w + bm);
        let payload = tail(col, 1);
        match q.matching(c, kind, s[29], rows, del, nulls, col) {
            Found::Rows(v, n) => {
                let max = usize::MAX as int;
                let (src, m) = plain_numbers(q.ints, rows, payload);
                select_adds(num_rows(src, q.test, del, Some(nulls)), m, 0, Seq::empty(), max);
                if let Some((src, m)) = packed_numbers(rows, payload) {
                    select_adds(num_rows(src, q.test, del, Some(nulls)), m, 0, Seq::empty(), max);
                }
                if let Some((data, _)) = c.decoded(true, col, kind) {
                    match data {
                        crate::column::ColumnSeq::Int64(x) => {
                            let m = crate::numeric::min2(x.len() as int, rows);
                            select_adds(
                                num_rows(NumSeq::Ints(x), q.test, del, Some(nulls)),
                                m,
                                0,
                                Seq::empty(),
                                max,
                            );
                        },
                        crate::column::ColumnSeq::Float64(x) => {
                            let m = crate::numeric::min2(x.len() as int, rows);
                            select_adds(
                                num_rows(NumSeq::Reals(x), q.test, del, Some(nulls)),
                                m,
                                0,
                                Seq::empty(),
                                max,
                            );
                        },
                        _ => {},
                    }
                }
                assert forall|k: int| 0 <= k < found.len() implies #[trigger] found[k] * 8 + 8
                    <= values.len() by {
                    assert(v[k] < n);
                }
            },
            _ => {},
        }
    }
}

/// What an update finds in a row group that it has written to: the same rows, and its value in all of
/// them.
#[verifier::spinoff_prover]
proof fn written_group<C: ColumnCodec>(
    q: RangeUpdateSeq,
    c: C,
    f: V4Footer,
    g: V4Footer,
    file: Seq<u8>,
    now: Seq<u8>,
    value: Seq<u8>,
    i: int,
)
    requires
        0 <= i,
        value.len() == 8,
        same_catalogue(q, f, g),
        now.len() == file.len(),
        set_apart(q, c, f, file, i),
        q.group(c, f, file, i) is Assign,
        ({
            let meta = f.row_groups@[i];
            let at = q.group(c, f, file, i)->Assign_1;
            let rows = q.group(c, f, file, i)->Assign_0;
            let values = q.group(c, f, file, i)->Assign_2;
            now.subrange(meta.offset as int, meta.offset + meta.data_size) == overwritten(
                file.subrange(meta.offset as int, meta.offset + meta.data_size),
                at - meta.offset,
                patched(values, rows, value),
            )
        }),
    ensures
        ({
            let at = q.group(c, f, file, i)->Assign_1;
            let rows = q.group(c, f, file, i)->Assign_0;
            let values = q.group(c, f, file, i)->Assign_2;
            q.group(c, g, now, i) == GroupUpdate::Assign(rows, at, patched(values, rows, value))
        }),
{
    let meta = f.row_groups@[i];
    let rows = meta.row_count as int;
    let bm = bitmap_len(rows);
    let found = q.group(c, f, file, i)->Assign_0;
    let at = q.group(c, f, file, i)->Assign_1;
    let values = q.group(c, f, file, i)->Assign_2;
    found_bound(q, c, f, file, i);
    assert(g.zone(i, q.where_col, false) == f.zone(i, q.where_col, false));
    let s = stored_group(meta, file)->Ok_0;
    let s2 = stored_group(meta, now)->Ok_0;
    let body = tail(s, 32);
    let body2 = tail(s2, 32);
    let w = f.rcix(i, q.where_col)->0;
    let o = f.rcix(i, q.set_col)->0;
    let kind = f.schema.kind(q.where_col);
    let col = tail(body, w + bm);
    let col2 = tail(body2, w + bm);
    let section = id_section(rows, s[30]);
    let from = o + bm + 9;
    let to = from + values.len();
    assert(at == meta.offset + 32 + from);
    assert(s2.len() == s.len());
    assert forall|j: int| 0 <= j < s.len() && !(32 + from <= j < 32 + to) implies s2[j] == s[j] by {}
    assert(s2[28] == s[28] && s2[29] == s[29] && s2[30] == s[30]);
    assert forall|j: int| 0 <= j < body.len() && !(from <= j < to) implies body2[j] == body[j] by {
        assert(body[j] == s[j + 32]);
        assert(body2[j] == s2[j + 32]);
    }
    assert(window(body2, section, bm) == window(body, section, bm)) by {
        assert(body2.subrange(section, section + bm) =~= body.subrange(section, section + bm));
    }
    assert(window(body2, w, bm) == window(body, w, bm)) by {
        assert(body2.subrange(w, w + bm) =~= body.subrange(w, w + bm));
    }
    let nulls = window(body, w, bm)->0;
    let d = window(body, section, bm)->0;
    let del = if meta.deletion_count > 0 {
        Some(d)
    } else {
        None
    };
    if to <= w {
        assert(col2 =~= col);
    } else {
        assert forall|j: int|
            0 <= j < looked_at(q, c, kind, s[29], rows, col) && j < col.len() implies col2[j]
            == col[j] by {
            assert(col[j] == body[w + bm + j]);
            assert(col2[j] == body2[w + bm + j]);
        }
        same_rows_found(q, c, kind, s[29], rows, del, nulls, col, col2);
    }
    let len = values.len() as int;
    let data = tail(body, o + bm);
    let data2 = tail(body2, o + bm);
    assert forall|j: int| 0 <= j < 9 implies data2[j] == data[j] by {
        assert(data[j] == body[o + bm + j]);
        assert(data2[j] == body2[o + bm + j]);
    }
    assert(data2.subrange(9, 9 + len) =~= patched(values, found, value)) by {
        assert forall|j: int| 0 <= j < values.len() implies data2.subrange(9, 9 + len)[j]
            == patched(values, found, value)[j] by {
            assert(data2[9 + j] == body2[o + bm + 9 + j]);
            assert(body2[from + j] == s2[32 + from + j]);
        }
    }
}

/// What has been patched holds the value.
proof fn patched_holds(values: Seq<u8>, rows: Seq<usize>, value: Seq<u8>)
    requires
        value.len() == 8,
        forall|k: int| 0 <= k < rows.len() ==> #[trigger] rows[k] * 8 + 8 <= values.len(),
    ensures
        !differs(patched(values, rows, value), rows, value),
{
    let p = patched(values, rows, value);
    assert forall|k: int| 0 <= k < rows.len() implies p.subrange(
        #[trigger] rows[k] * 8,
        rows[k] * 8 + 8,
    ) == value by {
        let r = rows[k] as int;
        assert forall|j: int| 0 <= j < 8 implies p.subrange(r * 8, r * 8 + 8)[j] == value[j] by {
            assert((r * 8 + j) / 8 == r);
            assert((r * 8 + j) % 8 == j);
            assert(rows.contains(rows[k]));
        }
        assert(p.subrange(r * 8, r * 8 + 8) =~= value);
    }
}

/// Whether no two row groups share bytes of the file.
pub open spec fn groups_apart(groups: Seq<RowGroupMeta>) -> bool {
    forall|i: int, j: int|
        0 <= i < j < groups.len() ==> {
            let a = #[trigger] groups[i];
            let b = #[trigger] groups[j];
            a.offset + a.data_size <= b.offset || b.offset + b.data_size <= a.offset
        }
}

/// The bytes of row group `i` after the writes of the first `k` row groups.
pub open spec fn bytes_after<C: ColumnCodec>(
    q: RangeUpdateSeq,
    c: C,
    f: V4Footer,
    file: Seq<u8>,
    value: Seq<u8>,
    k: int,
    i: int,
) -> Seq<u8> {
    let meta = f.row_groups@[i];
    if i < k {
        group_bytes(q, c, f, file, value, i)
    } else {
        file.subrange(meta.offset as int, meta.offset + meta.data_size)
    }
}

/// The writes of a plan go to their row groups and nowhere else.
pub(crate) proof fn writes_stay<C: ColumnCodec>(
    q: RangeUpdateSeq,
    c: C,
    f: V4Footer,
    file: Seq<u8>,
    value: Seq<u8>,
    k: int,
    i: int,
)
    requires
        value.len() == 8,
        groups_apart(f.row_groups@),
        0 <= k <= f.row_groups@.len(),
        0 <= i < f.row_groups@.len(),
        f.row_groups@[i].offset + f.row_groups@[i].data_size <= file.len(),
        q.plan(c, f, file, value, k) matches Ok(Some(_)),
    ensures
        ({
            let meta = f.row_groups@[i];
            let now = write_all(file, q.plan(c, f, file, value, k)->Ok_0->0.writes);
            &&& now.len() == file.len()
            &&& now.subrange(meta.offset as int, meta.offset + meta.data_size) == bytes_after(
                q,
                c,
                f,
                file,
                value,
                k,
                i,
            )
        }),
    decreases k,
{
    if k > 0 {
        let g = k - 1;
        writes_stay(q, c, f, file, value, g, i);
        let before = q.plan(c, f, file, value, g)->Ok_0->0;
        let p = q.plan(c, f, file, value, k)->Ok_0->0;
        let was = write_all(file, before.writes);
        let now = write_all(file, p.writes);
        let meta = f.row_groups@[i];
        found_bound(q, c, f, file, g);
        if let GroupUpdate::Assign(rows, at, values) = q.group(c, f, file, g) {
            if differs(values, rows, value) {
                let bytes = patched(values, rows, value);
                assert(p.writes == before.writes.push((at, bytes)));
                assert(p.writes.drop_last() =~= before.writes);
                assert(now == overwritten(was, at, bytes));
                let there = f.row_groups@[g];
                if i != g {
                    if i < g {
                        assert(f.row_groups@[i].offset + f.row_groups@[i].data_size
                            <= f.row_groups@[g].offset || f.row_groups@[g].offset
                            + f.row_groups@[g].data_size <= f.row_groups@[i].offset);
                    } else {
                        assert(f.row_groups@[g].offset + f.row_groups@[g].data_size
                            <= f.row_groups@[i].offset || f.row_groups@[i].offset
                            + f.row_groups@[i].data_size <= f.row_groups@[g].offset);
                    }
                    assert(now.subrange(meta.offset as int, meta.offset + meta.data_size)
                        =~= was.subrange(meta.offset as int, meta.offset + meta.data_size));
                } else {
                    let s = file.subrange(meta.offset as int, meta.offset + meta.data_size);
                    let t = was.subrange(meta.offset as int, meta.offset + meta.data_size);
                    assert(t == s);
                    let u = now.subrange(meta.offset as int, meta.offset + meta.data_size);
                    let v = overwritten(s, at - meta.offset, bytes);
                    assert(u =~= v) by {
                        assert forall|j: int| 0 <= j < s.len() implies #[trigger] u[j] == v[j] by {
                            assert(now[meta.offset + j] == (if at <= meta.offset + j < at
                                + bytes.len() {
                                bytes[meta.offset + j - at]
                            } else {
                                was[meta.offset + j]
                            }));
                            assert(t[j] == was[meta.offset + j]);
                        }
                    }
                }
            }
        }
    }
}

/// The length of the file stays, whether a row group lies in it or not.
pub(crate) proof fn writes_keep_length<C: ColumnCodec>(
    q: RangeUpdateSeq,
    c: C,
    f: V4Footer,
    file: Seq<u8>,
    value: Seq<u8>,
    k: int,
)
    requires
        0 <= k <= f.row_groups@.len(),
        q.plan(c, f, file, value, k) matches Ok(Some(_)),
    ensures
        write_all(file, q.plan(c, f, file, value, k)->Ok_0->0.writes).len() == file.len(),
    decreases k,
{
    if k > 0 {
        writes_keep_length(q, c, f, file, value, k - 1);
        let before = q.plan(c, f, file, value, k - 1)->Ok_0->0;
        let p = q.plan(c, f, file, value, k)->Ok_0->0;
        found_bound(q, c, f, file, k - 1);
        if let GroupUpdate::Assign(rows, at, values) = q.group(c, f, file, k - 1) {
            if differs(values, rows, value) {
                assert(p.writes.drop_last() =~= before.writes);
            }
        }
    }
}

/// The plan of the same update on what was written matches as many rows and writes nothing.
proof fn second_plan<C: ColumnCodec>(
    q: RangeUpdateSeq,
    c: C,
    f: V4Footer,
    g: V4Footer,
    file: Seq<u8>,
    value: Seq<u8>,
    k: int,
)
    requires
        value.len() == 8,
        groups_apart(f.row_groups@),
        0 <= k <= f.row_groups@.len(),
        same_catalogue(q, f, g),
        q.plan(c, f, file, value, f.row_groups@.len() as int) matches Ok(Some(_)),
        q.plan(c, f, file, value, k) matches Ok(Some(_)),
        forall|i: int| 0 <= i < f.row_groups@.len() ==> #[trigger] set_apart(q, c, f, file, i),
    ensures
        ({
            let n = f.row_groups@.len() as int;
            let now = write_all(file, q.plan(c, f, file, value, n)->Ok_0->0.writes);
            q.plan(c, g, now, value, k) matches Ok(Some(p)) && p.writes.len() == 0 && p.matched
                == q.plan(c, f, file, value, k)->Ok_0->0.matched
        }),
    decreases k,
{
    if k > 0 {
        let n = f.row_groups@.len() as int;
        let i = k - 1;
        let now = write_all(file, q.plan(c, f, file, value, n)->Ok_0->0.writes);
        second_plan(q, c, f, g, file, value, i);
        writes_keep_length(q, c, f, file, value, n);
        let meta = f.row_groups@[i];
        if meta.offset + meta.data_size <= file.len() {
            writes_stay(q, c, f, file, value, n, i);
        }
        assert(set_apart(q, c, f, file, i));
        found_bound(q, c, f, file, i);
        match q.group(c, f, file, i) {
            GroupUpdate::Assign(rows, at, values) => {
                if differs(values, rows, value) {
                    written_group(q, c, f, g, file, now, value, i);
                    patched_holds(values, rows, value);
                } else {
                    untouched_group(q, c, f, g, file, now, i);
                }
            },
            _ => {
                untouched_group(q, c, f, g, file, now, i);
            },
        }
    }
}

impl<C: ColumnCodec> OnDemandStorage<C> {
    /// A conditional update that is made a second time matches as many rows as the first time and
    /// writes nothing. The tested column is not the one that is set, row groups share no bytes, and in
    /// each of them the set column lies apart from what the update reads.
    pub proof fn law_conditional_update_again(
        self,
        after: Self,
        where_col: Seq<char>,
        low: F64,
        high: F64,
        set_col: Seq<char>,
        value: Seq<u8>,
        n: int,
        e: Effect,
    )
        requires
            value.len() == 8,
            self.update_range(where_col, low, high, set_col, value) == Ok::<
                Option<(int, Option<Effect>)>,
                ScanError,
            >(Some((n, Some(e)))),
            after.after(self, e),
            ({
                let (f, q) = self.range_update(where_col, low, high, set_col)->0;
                &&& q.where_col != q.set_col
                &&& groups_apart(f.row_groups@)
                &&& forall|i: int|
                    0 <= i < f.row_groups@.len() ==> #[trigger] set_apart(
                        q,
                        self.codec,
                        f,
                        self.file->0@,
                        i,
                    )
            }),
        ensures
            after.update_range(where_col, low, high, set_col, value) == Ok::<
                Option<(int, Option<Effect>)>,
                ScanError,
            >(Some((n, None))),
    {
        let (f, q) = self.range_update(where_col, low, high, set_col)->0;
        let g = after.footer->0;
        let file = self.file->0@;
        let k = f.row_groups@.len() as int;
        let p = q.plan(self.codec, f, file, value, k)->Ok_0->0;
        assert(e == q.effect(f, file, value, p));
        assert forall|i: int| 0 <= i implies #[trigger] g.zone(i, q.where_col, false) == f.zone(
            i,
            q.where_col,
            false,
        ) by {
            zones_of_test(q, f, g, value, i);
        }
        second_plan(q, self.codec, f, g, file, value, k);
        assert(after.range_update(where_col, low, high, set_col) == Some((g, q)));
    }
}

/// An update leaves the zone maps of the tested column alone.
proof fn zones_of_test(
    q: RangeUpdateSeq,
    f: V4Footer,
    g: V4Footer,
    value: Seq<u8>,
    i: int,
)
    requires
        0 <= i,
        q.where_col != q.set_col,
        zones(g).len() == zones(f).len(),
        forall|j: int|
            0 <= j < zones(f).len() ==> #[trigger] zones(g)[j] == zones(f)[j] || zones(g)[j]
                == widened_maps(zones(f)[j], q.set_col, value, false),
    ensures
        g.zone(i, q.where_col, false) == f.zone(i, q.where_col, false),
{
    if 0 <= i < f.zone_maps@.len() {
        let maps = zones(f)[i];
        assert(zones(g)[i] == g.zone_maps@[i]@);
        assert(maps == f.zone_maps@[i]@);
        zone_pos_facts(maps, q.set_col, 0);
        if let Some(k) = zone_pos(maps, q.set_col, 0) {
            zone_of_other_column(
                maps,
                k,
                crate::update::widened(maps[k], value, false),
                q.where_col,
                0,
            );
        }
    }
}

} // verus!
