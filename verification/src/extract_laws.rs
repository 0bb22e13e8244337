//! What holds of rows that are extracted by their numbers.

use vstd::prelude::*;

use crate::bytes::{bitmap_len, signed};
use crate::cells::{cells_of, CellSeq, Slot, SourceSeq};
use crate::codec::ColumnCodec;
use crate::extract::{
    all_hits, goes_quick, hits_between, hits_of, needed_of, no_cells, picked_start, placed_row_ids, quick_cells,
    quick_columns, quick_offsets, quick_upto, slot_of, with_cells, HitsSeq, PickedSeq,
};
use crate::group::{group_of, id_at, id_section, tail, GroupSeq};
use crate::model::{
    rows_before, rows_before_monotonic, ColumnType, OnDemandSchema, ScanError, V4Footer,
    RG_COMPRESS_NONE,
};
use crate::number_laws::{group_below, group_holding, hits_facts};
use crate::retrieve::needed_columns;
use crate::retrieve_laws::{among, ascend, cells_alone, placed_facts};
use crate::row_batch::{
    row_cells, row_columns, rows_column, rows_columns, rows_upto, typed_column, with_dim,
    RowsBatchSeq, RowsColumnSeq,
};
use crate::storage::OnDemandStorage;

verus! {

/// Reading several rows of a column gives for each of them what reading it alone gives.
pub proof fn law_extracted_alone<C: ColumnCodec>(
    c: C,
    kind: ColumnType,
    version: u8,
    nulls: Seq<u8>,
    col: Seq<u8>,
    rows: Seq<usize>,
    t: int,
)
    requires
        row_cells(c, kind, version, nulls, col, rows) matches Ok(Some(_)),
        0 <= t < rows.len(),
    ensures
        ({
            let v = row_cells(c, kind, version, nulls, col, rows)->Ok_0->Some_0;
            v.0.len() == rows.len() && row_cells(c, kind, version, nulls, col, seq![rows[t]])
                == Ok::<Option<(Seq<Option<CellSeq>>, Option<u32>)>, ScanError>(
                Some((seq![v.0[t]], v.1)),
            )
        }),
{
    reveal(row_cells);
    alone_in_each(rows, t, nulls);
}

proof fn alone_in_each(rows: Seq<usize>, t: int, nulls: Seq<u8>)
    requires
        0 <= t < rows.len(),
    ensures
        forall|src: SourceSeq, slot: Slot|
            (#[trigger] cells_of(src, slot, true, nulls, rows)) is Ok ==> {
                let w = cells_of(src, slot, true, nulls, rows)->Ok_0;
                w.len() == rows.len() && cells_of(src, slot, true, nulls, seq![rows[t]]) == Ok::<
                    Seq<Option<CellSeq>>,
                    ScanError,
                >(seq![w[t]])
            },
{
    assert forall|src: SourceSeq, slot: Slot|
        (#[trigger] cells_of(src, slot, true, nulls, rows)) is Ok implies ({
        let w = cells_of(src, slot, true, nulls, rows)->Ok_0;
        w.len() == rows.len() && cells_of(src, slot, true, nulls, seq![rows[t]]) == Ok::<
            Seq<Option<CellSeq>>,
            ScanError,
        >(seq![w[t]])
    }) by {
        cells_alone(src, slot, true, nulls, rows, cells_of(src, slot, true, nulls, rows)->Ok_0, t);
    }
}

proof fn quick_alone<C: ColumnCodec>(
    c: C,
    kind: ColumnType,
    version: u8,
    body: Seq<u8>,
    bm: int,
    at: int,
    rows: Seq<usize>,
    t: int,
)
    requires
        quick_cells(c, kind, version, body, bm, at, rows) is Ok,
        0 <= t < rows.len(),
    ensures
        ({
            let v = quick_cells(c, kind, version, body, bm, at, rows)->Ok_0;
            v.len() == rows.len() && quick_cells(c, kind, version, body, bm, at, seq![rows[t]])
                == Ok::<Seq<Option<CellSeq>>, ScanError>(seq![v[t]])
        }),
{
    assert(no_cells(1) =~= seq![None::<CellSeq>]);
    if let Some(nulls) = crate::group::window(body, at, bm) {
        alone_in_each(rows, t, nulls);
    }
}

/// The columns whose values are collected by place: those that are asked for, but for texts that are
/// collected in order.
pub open spec fn by_place(schema: OnDemandSchema, needed: Seq<bool>, in_order: bool) -> Seq<bool> {
    Seq::new(
        schema.columns@.len(),
        |ci: int| needed[ci] && !(in_order && slot_of(schema.kind(ci)) == Slot::Text),
    )
}

/// Whether every row has its place.
pub open spec fn picked_fits(st: PickedSeq, bp: Seq<bool>, n: int) -> bool {
    &&& st.ids.len() == n
    &&& st.bufs.len() == bp.len()
    &&& forall|ci: int| 0 <= ci < bp.len() && bp[ci] ==> (#[trigger] st.bufs[ci]).len() == n
}

/// Whether the places of some rows are still free in the columns from `from` on.
pub open spec fn places_free(st: PickedSeq, bp: Seq<bool>, outs: Seq<usize>, from: int) -> bool {
    forall|ci: int, t: int|
        from <= ci < bp.len() && bp[ci] && 0 <= t < outs.len() ==> (#[trigger] st.bufs[ci])[
        #[trigger] outs[t] as int] is None
}

/// Whether the columns from `from` on got the values `gv` at the places of some rows and kept the
/// rest.
pub open spec fn puts(
    st: PickedSeq,
    r: PickedSeq,
    bp: Seq<bool>,
    n: int,
    hits: HitsSeq,
    gv: spec_fn(int, usize) -> Option<CellSeq>,
    from: int,
) -> bool {
    &&& picked_fits(r, bp, n)
    &&& forall|ci: int, t: int|
        from <= ci < bp.len() && bp[ci] && 0 <= t < hits.outs.len() ==> (#[trigger] r.bufs[ci])[
        #[trigger] hits.outs[t] as int] == gv(ci, hits.rows[t])
    &&& forall|ci: int, j: int|
        from <= ci < bp.len() && bp[ci] && 0 <= j < n && !(#[trigger] among(
            hits.outs,
            hits.outs.len() as int,
            j,
        )) ==> (#[trigger] r.bufs[ci])[j] == st.bufs[ci][j]
    &&& forall|ci: int| 0 <= ci < from && ci < bp.len() ==> #[trigger] r.bufs[ci] == st.bufs[ci]
    &&& r.ids == st.ids
}

/// Whether hits have their places in an answer of `n` rows, in ascending order.
pub open spec fn hits_stand(hits: HitsSeq, n: int) -> bool {
    &&& hits.rows.len() == hits.outs.len()
    &&& hits.rows.len() > 0
    &&& ascend(hits.outs)
    &&& forall|t: int| 0 <= t < hits.outs.len() ==> #[trigger] hits.outs[t] < n
}

/// One column put at its places, and then the rest.
proof fn puts_next(
    schema: OnDemandSchema,
    in_order: bool,
    needed: Seq<bool>,
    st: PickedSeq,
    mid: PickedSeq,
    r: PickedSeq,
    n: int,
    hits: HitsSeq,
    gv: spec_fn(int, usize) -> Option<CellSeq>,
    ci: int,
    cells: Seq<Option<CellSeq>>,
)
    requires
        0 <= ci < schema.columns@.len(),
        hits_stand(hits, n),
        picked_fits(st, by_place(schema, needed, in_order), n),
        places_free(st, by_place(schema, needed, in_order), hits.outs, ci),
        needed[ci],
        cells.len() == hits.rows.len(),
        forall|t: int| 0 <= t < cells.len() ==> #[trigger] cells[t] == gv(ci, hits.rows[t]),
        mid.ids == st.ids,
        mid.bufs == with_cells(schema, in_order, st, hits, ci, cells).bufs,
    ensures
        picked_fits(mid, by_place(schema, needed, in_order), n),
        places_free(mid, by_place(schema, needed, in_order), hits.outs, ci + 1),
        puts(mid, r, by_place(schema, needed, in_order), n, hits, gv, ci + 1) ==> puts(
            st,
            r,
            by_place(schema, needed, in_order),
            n,
            hits,
            gv,
            ci,
        ),
{
    let bp = by_place(schema, needed, in_order);
    if bp[ci] {
        assert(st.bufs[ci].len() == n);
        placed_facts(st.bufs[ci], hits.outs, cells);
        assert forall|t: int| 0 <= t < hits.outs.len() implies mid.bufs[ci][
        #[trigger] hits.outs[t] as int] == gv(ci, hits.rows[t]) by {
            assert(st.bufs[ci][hits.outs[t] as int] is None);
            assert(cells[t] == gv(ci, hits.rows[t]));
        }
    }
}

/// The value of one row of column `ci` that is read where it stands.
pub open spec fn quick_value<C: ColumnCodec>(
    c: C,
    schema: OnDemandSchema,
    version: u8,
    body: Seq<u8>,
    bm: int,
    offsets: Seq<u32>,
    ci: int,
    row: usize,
) -> Option<CellSeq> {
    match quick_cells(c, schema.kind(ci), version, body, bm, offsets[ci] as int, seq![row]) {
        Err(_) => None,
        Ok(v) => v[0],
    }
}

#[verifier::spinoff_prover]
proof fn quick_columns_put<C: ColumnCodec>(
    c: C,
    schema: OnDemandSchema,
    needed: Seq<bool>,
    version: u8,
    body: Seq<u8>,
    bm: int,
    offsets: Seq<u32>,
    hits: HitsSeq,
    st: PickedSeq,
    ci: int,
    n: int,
    gv: spec_fn(int, usize) -> Option<CellSeq>,
)
    requires
        0 <= ci <= schema.columns@.len(),
        hits_stand(hits, n),
        picked_fits(st, by_place(schema, needed, false), n),
        places_free(st, by_place(schema, needed, false), hits.outs, ci),
        quick_columns(c, schema, needed, version, body, bm, offsets, hits, st, ci) is Ok,
        forall|ci: int, row: usize| #[trigger]
            gv(ci, row) == quick_value(c, schema, version, body, bm, offsets, ci, row),
    ensures
        puts(
            st,
            quick_columns(c, schema, needed, version, body, bm, offsets, hits, st, ci)->Ok_0,
            by_place(schema, needed, false),
            n,
            hits,
            gv,
            ci,
        ),
    decreases schema.columns@.len() - ci,
{
    let bp = by_place(schema, needed, false);
    if ci < schema.columns@.len() {
        let r = quick_columns(c, schema, needed, version, body, bm, offsets, hits, st, ci)->Ok_0;
        if needed[ci] {
            let kind = schema.kind(ci);
            let at = offsets[ci] as int;
            let cells = quick_cells(c, kind, version, body, bm, at, hits.rows)->Ok_0;
            let mid = with_cells(schema, false, st, hits, ci, cells);
            quick_alone(c, kind, version, body, bm, at, hits.rows, 0);
            assert forall|t: int| 0 <= t < cells.len() implies #[trigger] cells[t] == gv(
                ci,
                hits.rows[t],
            ) by {
                quick_alone(c, kind, version, body, bm, at, hits.rows, t);
            }
            puts_next(schema, false, needed, st, mid, r, n, hits, gv, ci, cells);
            quick_columns_put(
                c,
                schema,
                needed,
                version,
                body,
                bm,
                offsets,
                hits,
                mid,
                ci + 1,
                n,
                gv,
            );
        } else {
            quick_columns_put(
                c,
                schema,
                needed,
                version,
                body,
                bm,
                offsets,
                hits,
                st,
                ci + 1,
                n,
                gv,
            );
            assert(!bp[ci]);
        }
    }
}

/// Where column `ci` of a row group starts that is walked over from `start` on.
pub open spec fn walk_to<C: ColumnCodec>(
    c: C,
    schema: OnDemandSchema,
    g: GroupSeq,
    bm: int,
    start: int,
    ci: int,
) -> Option<int>
    decreases ci,
{
    if ci <= 0 {
        Some(start)
    } else {
        match walk_to(c, schema, g, bm, start, ci - 1) {
            None => None,
            Some(at) => if at + bm > g.body.len() {
                None
            } else {
                match c.extent(g.version >= 1, tail(g.body, at + bm), schema.kind(ci - 1)) {
                    None => None,
                    Some(n) => Some(at + bm + n),
                }
            },
        }
    }
}

proof fn walk_stopped<C: ColumnCodec>(
    c: C,
    schema: OnDemandSchema,
    g: GroupSeq,
    bm: int,
    start: int,
    ci: int,
    k: int,
)
    requires
        0 <= ci < k,
        walk_to(c, schema, g, bm, start, ci) matches Some(at) && at + bm > g.body.len(),
    ensures
        walk_to(c, schema, g, bm, start, k) is None,
    decreases k,
{
    if ci < k - 1 {
        walk_stopped(c, schema, g, bm, start, ci, k - 1);
    }
}

/// The value of one row of column `ci` of a row group, where it can be reached.
pub open spec fn group_value<C: ColumnCodec>(
    c: C,
    f: V4Footer,
    g: GroupSeq,
    i: int,
    on_record: bool,
    start: int,
    ci: int,
    row: usize,
) -> Option<CellSeq> {
    let bm = bitmap_len(f.row_groups@[i].row_count as int);
    let place = if on_record {
        Some(f.col_offsets@[i]@[ci] as int)
    } else {
        walk_to(c, f.schema, g, bm, start, ci)
    };
    match place {
        None => None,
        Some(at) => if at + bm > g.body.len() {
            None
        } else {
            match row_cells(
                c,
                f.schema.kind(ci),
                g.version,
                g.body.subrange(at, at + bm),
                tail(g.body, at + bm),
                seq![row],
            ) {
                Ok(Some((v, _))) => v[0],
                _ => None,
            }
        },
    }
}

#[verifier::spinoff_prover]
proof fn row_columns_put<C: ColumnCodec>(
    c: C,
    f: V4Footer,
    needed: Seq<bool>,
    g: GroupSeq,
    i: int,
    on_record: bool,
    hits: HitsSeq,
    st: PickedSeq,
    ci: int,
    pos: int,
    start: int,
    n: int,
    gv: spec_fn(int, usize) -> Option<CellSeq>,
)
    requires
        0 <= ci <= f.schema.columns@.len(),
        hits_stand(hits, n),
        picked_fits(st, by_place(f.schema, needed, true), n),
        places_free(st, by_place(f.schema, needed, true), hits.outs, ci),
        row_columns(c, f, needed, g, i, on_record, hits, st, ci, pos) matches Ok(Some(_)),
        !on_record ==> walk_to(
            c,
            f.schema,
            g,
            bitmap_len(f.row_groups@[i].row_count as int),
            start,
            ci,
        ) == Some(pos),
        forall|ci: int, row: usize| #[trigger]
            gv(ci, row) == group_value(c, f, g, i, on_record, start, ci, row),
    ensures
        puts(
            st,
            row_columns(c, f, needed, g, i, on_record, hits, st, ci, pos)->Ok_0->Some_0,
            by_place(f.schema, needed, true),
            n,
            hits,
            gv,
            ci,
        ),
    decreases f.schema.columns@.len() - ci,
{
    let schema = f.schema;
    let bp = by_place(schema, needed, true);
    let bm = bitmap_len(f.row_groups@[i].row_count as int);
    if ci < schema.columns@.len() {
        let r = row_columns(c, f, needed, g, i, on_record, hits, st, ci, pos)->Ok_0->Some_0;
        let at = if on_record {
            f.col_offsets@[i]@[ci] as int
        } else {
            pos
        };
        if !needed[ci] && on_record {
            row_columns_put(c, f, needed, g, i, on_record, hits, st, ci + 1, pos, start, n, gv);
            assert(!bp[ci]);
        } else if at + bm > g.body.len() {
            if on_record {
                let none = no_cells(hits.rows.len() as int);
                let mid = with_cells(schema, true, st, hits, ci, none);
                puts_next(schema, true, needed, st, mid, r, n, hits, gv, ci, none);
                row_columns_put(c, f, needed, g, i, on_record, hits, mid, ci + 1, pos, start, n, gv);
            } else {
                assert forall|k: int, t: int|
                    ci <= k < bp.len() && bp[k] && 0 <= t < hits.outs.len() implies (
                #[trigger] r.bufs[k])[#[trigger] hits.outs[t] as int] == gv(k, hits.rows[t]) by {
                    if k > ci {
                        walk_stopped(c, schema, g, bm, start, ci, k);
                    }
                }
            }
        } else {
            let nulls = g.body.subrange(at, at + bm);
            let col = tail(g.body, at + bm);
            let kind = schema.kind(ci);
            let next = if on_record {
                pos
            } else {
                at + bm + c.extent(g.version >= 1, col, kind)->0
            };
            if needed[ci] {
                let v = row_cells(c, kind, g.version, nulls, col, hits.rows)->Ok_0->Some_0;
                let mid = with_dim(with_cells(schema, true, st, hits, ci, v.0), ci, v.1);
                law_extracted_alone(c, kind, g.version, nulls, col, hits.rows, 0);
                assert forall|t: int| 0 <= t < v.0.len() implies #[trigger] v.0[t] == gv(
                    ci,
                    hits.rows[t],
                ) by {
                    law_extracted_alone(c, kind, g.version, nulls, col, hits.rows, t);
                }
                puts_next(schema, true, needed, st, mid, r, n, hits, gv, ci, v.0);
                row_columns_put(
                    c,
                    f,
                    needed,
                    g,
                    i,
                    on_record,
                    hits,
                    mid,
                    ci + 1,
                    next,
                    start,
                    n,
                    gv,
                );
            } else {
                row_columns_put(
                    c,
                    f,
                    needed,
                    g,
                    i,
                    on_record,
                    hits,
                    st,
                    ci + 1,
                    next,
                    start,
                    n,
                    gv,
                );
                assert(!bp[ci]);
            }
        }
    }
}

proof fn row_ids_facts(
    body: Seq<u8>,
    min_id: u64,
    ids: u8,
    hits: HitsSeq,
    acc: Seq<i64>,
    k: int,
)
    requires
        0 <= k <= hits.rows.len(),
        hits_stand(hits, acc.len() as int),
    ensures
        placed_row_ids(body, min_id, ids, hits, acc, k).len() == acc.len(),
        forall|t: int|
            0 <= t < k ==> placed_row_ids(body, min_id, ids, hits, acc, k)[
            #[trigger] hits.outs[t] as int] == (match id_at(
                body,
                min_id,
                ids,
                hits.rows[t] as int,
            ) {
                None => acc[hits.outs[t] as int],
                Some(id) => signed(id) as i64,
            }),
        forall|j: int|
            0 <= j < acc.len() && !(#[trigger] among(hits.outs, k, j)) ==> placed_row_ids(
                body,
                min_id,
                ids,
                hits,
                acc,
                k,
            )[j] == acc[j],
    decreases k,
{
    if k > 0 {
        row_ids_facts(body, min_id, ids, hits, acc, k - 1);
        let before = placed_row_ids(body, min_id, ids, hits, acc, k - 1);
        let r = placed_row_ids(body, min_id, ids, hits, acc, k);
        let last = hits.outs[k - 1];
        assert(!among(hits.outs, k - 1, last as int)) by {
            if among(hits.outs, k - 1, last as int) {
                let t = choose|t: int| 0 <= t < k - 1 && #[trigger] hits.outs[t] == last as int;
                assert(hits.outs[t] < hits.outs[k - 1]);
            }
        }
        assert(before[last as int] == acc[last as int]);
        assert forall|t: int| 0 <= t < k implies r[#[trigger] hits.outs[t] as int] == (match id_at(
            body,
            min_id,
            ids,
            hits.rows[t] as int,
        ) {
            None => acc[hits.outs[t] as int],
            Some(id) => signed(id) as i64,
        }) by {
            if t < k - 1 {
                assert(hits.outs[t] < hits.outs[k - 1]);
            }
        }
        assert forall|j: int| 0 <= j < acc.len() && !(#[trigger] among(hits.outs, k, j)) implies r[j]
            == acc[j] by {
            assert(hits.outs[k - 1] != j);
            assert(!among(hits.outs, k - 1, j));
        }
    }
}

/// Whether the columns of a row group are read at their places on record.
pub open spec fn on_record(f: V4Footer, g: GroupSeq, i: int) -> bool {
    g.flag == RG_COMPRESS_NONE && g.version >= 1 && i < f.col_offsets@.len()
        && f.col_offsets@[i]@.len() >= f.schema.columns@.len()
}

/// The value of one row of column `ci` of row group `i`, the way it is read there.
pub open spec fn value_in<C: ColumnCodec>(
    c: C,
    f: V4Footer,
    file: Seq<u8>,
    quick: bool,
    g: GroupSeq,
    i: int,
    ci: int,
    row: usize,
) -> Option<CellSeq> {
    let rows = f.row_groups@[i].row_count as int;
    if quick {
        quick_value(
            c,
            f.schema,
            g.version,
            g.body,
            bitmap_len(rows),
            quick_offsets(c, f, file, i)->0,
            ci,
            row,
        )
    } else {
        group_value(
            c,
            f,
            g,
            i,
            on_record(f, g, i),
            id_section(rows, g.ids) + bitmap_len(rows),
            ci,
            row,
        )
    }
}

/// The identifier of row `index`, 0 where it has none or lies beyond the first `k` row groups.
pub open spec fn picked_id<C: ColumnCodec>(
    c: C,
    f: V4Footer,
    file: Seq<u8>,
    index: int,
    k: int,
) -> i64 {
    match group_holding(f.row_groups@, index, k) {
        None => 0,
        Some(i) => match group_of(c, f.row_groups@[i], file) {
            Err(_) => 0,
            Ok(g) => match id_at(
                g.body,
                f.row_groups@[i].min_id,
                g.ids,
                index - rows_before(f.row_groups@, i),
            ) {
                None => 0,
                Some(id) => signed(id) as i64,
            },
        },
    }
}

/// The value of column `ci` in row `index`, where it lies in the first `k` row groups.
pub open spec fn picked_value<C: ColumnCodec>(
    c: C,
    f: V4Footer,
    file: Seq<u8>,
    quick: bool,
    ci: int,
    index: int,
    k: int,
) -> Option<CellSeq> {
    match group_holding(f.row_groups@, index, k) {
        None => None,
        Some(i) => match group_of(c, f.row_groups@[i], file) {
            Err(_) => None,
            Ok(g) => value_in(
                c,
                f,
                file,
                quick,
                g,
                i,
                ci,
                (index - rows_before(f.row_groups@, i)) as usize,
            ),
        },
    }
}

/// Whether place `j` holds what the first `k` row groups hold of the row that is asked for there.
pub open spec fn place_right<C: ColumnCodec>(
    c: C,
    f: V4Footer,
    file: Seq<u8>,
    quick: bool,
    bp: Seq<bool>,
    indices: Seq<usize>,
    k: int,
    st: PickedSeq,
    j: int,
) -> bool {
    &&& st.ids[j] == picked_id(c, f, file, indices[j] as int, k)
    &&& forall|ci: int|
        0 <= ci < bp.len() && bp[ci] ==> (#[trigger] st.bufs[ci])[j] == picked_value(
            c,
            f,
            file,
            quick,
            ci,
            indices[j] as int,
            k,
        )
}

/// A collection with the identifiers of the rows that are asked for in one row group.
pub open spec fn with_ids(f: V4Footer, g: GroupSeq, i: int, hits: HitsSeq, st: PickedSeq) -> PickedSeq {
    PickedSeq {
        ids: placed_row_ids(
            g.body,
            f.row_groups@[i].min_id,
            g.ids,
            hits,
            st.ids,
            hits.rows.len() as int,
        ),
        ..st
    }
}

#[verifier::spinoff_prover]
proof fn place_step<C: ColumnCodec>(
    c: C,
    f: V4Footer,
    file: Seq<u8>,
    quick: bool,
    bp: Seq<bool>,
    indices: Seq<usize>,
    i: int,
    g: GroupSeq,
    st: PickedSeq,
    r: PickedSeq,
    gv: spec_fn(int, usize) -> Option<CellSeq>,
)
    requires
        0 <= i < f.row_groups@.len(),
        indices.len() <= usize::MAX,
        picked_fits(st, bp, indices.len() as int),
        hits_stand(hits_of(f.row_groups@, indices, i), indices.len() as int),
        forall|j: int|
            0 <= j < indices.len() ==> #[trigger] place_right(
                c,
                f,
                file,
                quick,
                bp,
                indices,
                i,
                st,
                j,
            ),
        group_of(c, f.row_groups@[i], file) == Ok::<GroupSeq, ScanError>(g),
        forall|ci: int, row: usize| #[trigger]
            gv(ci, row) == value_in(c, f, file, quick, g, i, ci, row),
        puts(
            with_ids(f, g, i, hits_of(f.row_groups@, indices, i), st),
            r,
            bp,
            indices.len() as int,
            hits_of(f.row_groups@, indices, i),
            gv,
            0,
        ),
    ensures
        forall|j: int|
            0 <= j < indices.len() ==> #[trigger] place_right(
                c,
                f,
                file,
                quick,
                bp,
                indices,
                i + 1,
                r,
                j,
            ),
{
    let n = indices.len() as int;
    let groups = f.row_groups@;
    let lo = rows_before(groups, i);
    let hi = rows_before(groups, i + 1);
    rows_before_monotonic(groups, i, i + 1);
    let hits = hits_of(groups, indices, i);
    let all = hits.outs.len() as int;
    hits_facts(lo, hi, indices, n);
    row_ids_facts(g.body, groups[i].min_id, g.ids, hits, st.ids, all);
    assert forall|j: int| 0 <= j < n implies #[trigger] place_right(
        c,
        f,
        file,
        quick,
        bp,
        indices,
        i + 1,
        r,
        j,
    ) by {
        assert(place_right(c, f, file, quick, bp, indices, i, st, j));
        group_below(groups, indices[j] as int, i);
        if among(hits.outs, all, j) {
            let t = choose|t: int| 0 <= t < all && #[trigger] hits.outs[t] == j;
            assert(lo <= indices[hits.outs[t] as int] < hi);
            assert forall|ci: int| 0 <= ci < bp.len() && bp[ci] implies (#[trigger] r.bufs[ci])[j]
                == picked_value(c, f, file, quick, ci, indices[j] as int, i + 1) by {
                assert(r.bufs[ci][hits.outs[t] as int] == gv(ci, hits.rows[t]));
            }
        } else {
            assert(!(lo <= indices[j] < hi));
            assert forall|ci: int| 0 <= ci < bp.len() && bp[ci] implies (#[trigger] r.bufs[ci])[j]
                == picked_value(c, f, file, quick, ci, indices[j] as int, i + 1) by {
                assert(r.bufs[ci][j] == st.bufs[ci][j]);
            }
        }
    }
}

proof fn places_stay_free<C: ColumnCodec>(
    c: C,
    f: V4Footer,
    file: Seq<u8>,
    quick: bool,
    bp: Seq<bool>,
    indices: Seq<usize>,
    i: int,
    st: PickedSeq,
)
    requires
        0 <= i < f.row_groups@.len(),
        indices.len() <= usize::MAX,
        forall|j: int|
            0 <= j < indices.len() ==> #[trigger] place_right(
                c,
                f,
                file,
                quick,
                bp,
                indices,
                i,
                st,
                j,
            ),
    ensures
        places_free(st, bp, hits_of(f.row_groups@, indices, i).outs, 0),
        hits_of(f.row_groups@, indices, i).rows.len() > 0 ==> hits_stand(
            hits_of(f.row_groups@, indices, i),
            indices.len() as int,
        ),
        hits_of(f.row_groups@, indices, i).rows.len() == 0 ==> forall|j: int|
            0 <= j < indices.len() ==> #[trigger] place_right(
                c,
                f,
                file,
                quick,
                bp,
                indices,
                i + 1,
                st,
                j,
            ),
{
    let groups = f.row_groups@;
    let n = indices.len() as int;
    let lo = rows_before(groups, i);
    let hi = rows_before(groups, i + 1);
    rows_before_monotonic(groups, i, i + 1);
    let hits = hits_of(groups, indices, i);
    hits_facts(lo, hi, indices, n);
    assert forall|ci: int, t: int|
        0 <= ci < bp.len() && bp[ci] && 0 <= t < hits.outs.len() implies (#[trigger] st.bufs[ci])[
    #[trigger] hits.outs[t] as int] is None by {
        let j = hits.outs[t] as int;
        assert(place_right(c, f, file, quick, bp, indices, i, st, j));
        group_below(groups, indices[j] as int, i);
    }
    if hits.rows.len() == 0 {
        assert forall|j: int| 0 <= j < n implies #[trigger] place_right(
            c,
            f,
            file,
            quick,
            bp,
            indices,
            i + 1,
            st,
            j,
        ) by {
            assert(place_right(c, f, file, quick, bp, indices, i, st, j));
            assert(!(lo <= indices[j] < hi));
        }
    }
}

#[verifier::spinoff_prover]
proof fn rows_upto_right<C: ColumnCodec>(
    c: C,
    f: V4Footer,
    file: Seq<u8>,
    needed: Seq<bool>,
    indices: Seq<usize>,
    k: int,
    st: PickedSeq,
)
    requires
        0 <= k <= f.row_groups@.len(),
        indices.len() <= usize::MAX,
        rows_upto(
            c,
            f,
            file,
            needed,
            all_hits(f.row_groups@, indices),
            indices.len() as int,
            k,
        ) == Ok::<Option<PickedSeq>, ScanError>(Some(st)),
    ensures
        picked_fits(st, by_place(f.schema, needed, true), indices.len() as int),
        forall|j: int|
            0 <= j < indices.len() ==> #[trigger] place_right(
                c,
                f,
                file,
                false,
                by_place(f.schema, needed, true),
                indices,
                k,
                st,
                j,
            ),
    decreases k,
{
    let n = indices.len() as int;
    let bp = by_place(f.schema, needed, true);
    let hits = all_hits(f.row_groups@, indices);
    if k > 0 {
        let i = k - 1;
        let before = rows_upto(c, f, file, needed, hits, n, i)->Ok_0->Some_0;
        rows_upto_right(c, f, file, needed, indices, i, before);
        places_stay_free(c, f, file, false, bp, indices, i, before);
        let h = hits_of(f.row_groups@, indices, i);
        assert(hits[i] == h);
        if h.rows.len() > 0 {
            let g = group_of(c, f.row_groups@[i], file)->Ok_0;
            let rows = f.row_groups@[i].row_count as int;
            let start = id_section(rows, g.ids) + bitmap_len(rows);
            let gv = |ci: int, row: usize| value_in(c, f, file, false, g, i, ci, row);
            let mid = with_ids(f, g, i, h, before);
            row_ids_facts(
                g.body,
                f.row_groups@[i].min_id,
                g.ids,
                h,
                before.ids,
                h.rows.len() as int,
            );
            row_columns_put(
                c,
                f,
                needed,
                g,
                i,
                on_record(f, g, i),
                h,
                mid,
                0,
                start,
                start,
                n,
                gv,
            );
            place_step(c, f, file, false, bp, indices, i, g, before, st, gv);
        }
        assert forall|j: int| 0 <= j < n implies #[trigger] place_right(
            c,
            f,
            file,
            false,
            bp,
            indices,
            k,
            st,
            j,
        ) by {
            assert(place_right(c, f, file, false, bp, indices, i + 1, st, j));
        }
    } else {
        assert(st == picked_start(f.schema, needed, true, n));
        assert forall|j: int| 0 <= j < n implies #[trigger] place_right(
            c,
            f,
            file,
            false,
            bp,
            indices,
            k,
            st,
            j,
        ) by {
            assert(st.ids[j] == 0);
        }
    }
}

#[verifier::spinoff_prover]
proof fn quick_upto_right<C: ColumnCodec>(
    c: C,
    f: V4Footer,
    file: Seq<u8>,
    needed: Seq<bool>,
    indices: Seq<usize>,
    k: int,
    st: PickedSeq,
)
    requires
        0 <= k <= f.row_groups@.len(),
        indices.len() <= usize::MAX,
        goes_quick(
            c,
            f,
            file,
            needed,
            all_hits(f.row_groups@, indices),
            indices.len() as int,
        ),
        quick_upto(
            c,
            f,
            file,
            needed,
            all_hits(f.row_groups@, indices),
            indices.len() as int,
            k,
        ) == Ok::<PickedSeq, ScanError>(st),
    ensures
        picked_fits(st, by_place(f.schema, needed, false), indices.len() as int),
        forall|j: int|
            0 <= j < indices.len() ==> #[trigger] place_right(
                c,
                f,
                file,
                true,
                by_place(f.schema, needed, false),
                indices,
                k,
                st,
                j,
            ),
    decreases k,
{
    let n = indices.len() as int;
    let bp = by_place(f.schema, needed, false);
    let hits = all_hits(f.row_groups@, indices);
    if k > 0 {
        let i = k - 1;
        let before = quick_upto(c, f, file, needed, hits, n, i)->Ok_0;
        quick_upto_right(c, f, file, needed, indices, i, before);
        places_stay_free(c, f, file, true, bp, indices, i, before);
        let h = hits_of(f.row_groups@, indices, i);
        assert(hits[i] == h);
        if h.rows.len() > 0 {
            assert(quick_offsets(c, f, file, i) is Some);
            let g = group_of(c, f.row_groups@[i], file)->Ok_0;
            let gv = |ci: int, row: usize| value_in(c, f, file, true, g, i, ci, row);
            let mid = with_ids(f, g, i, h, before);
            row_ids_facts(
                g.body,
                f.row_groups@[i].min_id,
                g.ids,
                h,
                before.ids,
                h.rows.len() as int,
            );
            quick_columns_put(
                c,
                f.schema,
                needed,
                g.version,
                g.body,
                bitmap_len(f.row_groups@[i].row_count as int),
                quick_offsets(c, f, file, i)->0,
                h,
                mid,
                0,
                n,
                gv,
            );
            place_step(c, f, file, true, bp, indices, i, g, before, st, gv);
        }
        assert forall|j: int| 0 <= j < n implies #[trigger] place_right(
            c,
            f,
            file,
            true,
            bp,
            indices,
            k,
            st,
            j,
        ) by {
            assert(place_right(c, f, file, true, bp, indices, i + 1, st, j));
        }
    } else {
        assert(st == picked_start(f.schema, needed, false, n));
        assert forall|j: int| 0 <= j < n implies #[trigger] place_right(
            c,
            f,
            file,
            true,
            bp,
            indices,
            k,
            st,
            j,
        ) by {
            assert(st.ids[j] == 0);
        }
    }
}

proof fn rows_columns_are(schema: OnDemandSchema, needed: Seq<bool>, st: PickedSeq, n: int, k: int)
    requires
        0 <= k <= schema.columns@.len() <= usize::MAX,
        needed.len() == schema.columns@.len(),
    ensures
        rows_columns(schema, needed, st, n, k).len() == needed_columns(needed, k).len(),
        forall|q: int|
            0 <= q < needed_columns(needed, k).len() ==> {
                let ci = #[trigger] needed_columns(needed, k)[q] as int;
                &&& 0 <= ci < k
                &&& needed[ci]
                &&& rows_columns(schema, needed, st, n, k)[q] == (
                    schema.columns@[ci].0@,
                    rows_column(schema.kind(ci), st.dims[ci], st.bufs[ci], n),
                )
            },
    decreases k,
{
    if k > 0 {
        rows_columns_are(schema, needed, st, n, k - 1);
        let before = needed_columns(needed, k - 1);
        let now = needed_columns(needed, k);
        assert forall|q: int| 0 <= q < now.len() implies ({
            let ci = #[trigger] now[q] as int;
            &&& 0 <= ci < k
            &&& needed[ci]
            &&& rows_columns(schema, needed, st, n, k)[q] == (
                schema.columns@[ci].0@,
                rows_column(schema.kind(ci), st.dims[ci], st.bufs[ci], n),
            )
        }) by {
            if q < before.len() {
                assert(now[q] == before[q]);
            }
        }
    }
}

impl<C: ColumnCodec> OnDemandStorage<C> {
    /// Extracted rows come in the order in which they are asked for: every place has the identifier
    /// and the values of the row that is asked for there, as they are read of that row alone. Left out
    /// are the texts that are collected in the order of the row groups.
    pub proof fn law_extracted_rows(
        self,
        indices: Seq<usize>,
        names: Option<Seq<Seq<char>>>,
        with_id: bool,
        ids: Seq<i64>,
        columns: Seq<(Seq<char>, RowsColumnSeq)>,
        f: V4Footer,
        file: Vec<u8>,
    )
        requires
            0 < indices.len() <= usize::MAX,
            f.schema.columns@.len() <= usize::MAX,
            self.footer == Some(f),
            self.file == Some(file),
            self.rows_batch(indices, names) == Ok::<Option<RowsBatchSeq>, ScanError>(
                Some(RowsBatchSeq::Rows { with_id, ids, columns }),
            ),
        ensures
            ({
                let n = indices.len() as int;
                let all = f.row_groups@.len() as int;
                let needed = needed_of(f.schema, names);
                let cols = needed_columns(needed, needed.len() as int);
                let quick = goes_quick(
                    self.codec,
                    f,
                    file@,
                    needed,
                    all_hits(f.row_groups@, indices),
                    n,
                );
                &&& ids.len() == n
                &&& forall|j: int|
                    0 <= j < n ==> #[trigger] ids[j] == picked_id(
                        self.codec,
                        f,
                        file@,
                        indices[j] as int,
                        all,
                    )
                &&& columns.len() == cols.len()
                &&& forall|q: int|
                    0 <= q < cols.len() ==> {
                        let ci = #[trigger] cols[q] as int;
                        let values = Seq::new(
                            n as nat,
                            |j: int|
                                picked_value(
                                    self.codec,
                                    f,
                                    file@,
                                    quick,
                                    ci,
                                    indices[j] as int,
                                    all,
                                ),
                        );
                        &&& columns[q].0 == f.schema.columns@[ci].0@
                        &&& by_place(f.schema, needed, !quick)[ci] ==> exists|dim: u32|
                            columns[q].1 == #[trigger] rows_column(
                                f.schema.kind(ci),
                                dim,
                                values,
                                n,
                            )
                    }
            }),
    {
        let n = indices.len() as int;
        let c = self.codec;
        let all = f.row_groups@.len() as int;
        let needed = needed_of(f.schema, names);
        let cols = needed_columns(needed, needed.len() as int);
        let hits = all_hits(f.row_groups@, indices);
        let quick = goes_quick(c, f, file@, needed, hits, n);
        let bp = by_place(f.schema, needed, !quick);
        let st = if quick {
            quick_upto(c, f, file@, needed, hits, n, all)->Ok_0
        } else {
            rows_upto(c, f, file@, needed, hits, n, all)->Ok_0->Some_0
        };
        if quick {
            quick_upto_right(c, f, file@, needed, indices, all, st);
        } else {
            rows_upto_right(c, f, file@, needed, indices, all, st);
        }
        rows_columns_are(f.schema, needed, st, n, needed.len() as int);
        assert forall|j: int| 0 <= j < n implies #[trigger] ids[j] == picked_id(
            c,
            f,
            file@,
            indices[j] as int,
            all,
        ) by {
            assert(place_right(c, f, file@, quick, bp, indices, all, st, j));
        }
        assert forall|q: int| 0 <= q < cols.len() implies ({
            let ci = #[trigger] cols[q] as int;
            let values = Seq::new(
                n as nat,
                |j: int| picked_value(c, f, file@, quick, ci, indices[j] as int, all),
            );
            &&& columns[q].0 == f.schema.columns@[ci].0@
            &&& bp[ci] ==> exists|dim: u32|
                columns[q].1 == #[trigger] rows_column(f.schema.kind(ci), dim, values, n)
        }) by {
            let ci = cols[q] as int;
            let values = Seq::new(
                n as nat,
                |j: int| picked_value(c, f, file@, quick, ci, indices[j] as int, all),
            );
            if bp[ci] {
                assert(st.bufs[ci].len() == n);
                assert forall|j: int| 0 <= j < n implies st.bufs[ci][j] == values[j] by {
                    assert(place_right(c, f, file@, quick, bp, indices, all, st, j));
                }
                assert(st.bufs[ci] =~= values);
                assert(columns[q].1 == rows_column(f.schema.kind(ci), st.dims[ci], values, n));
            }
        }
    }
}

/// Whether column `ci` of a row group can be reached: it has its place on record, or the columns before
/// it can be walked over.
pub open spec fn reached<C: ColumnCodec>(c: C, f: V4Footer, g: GroupSeq, i: int, ci: int) -> bool {
    let rows = f.row_groups@[i].row_count as int;
    let bm = bitmap_len(rows);
    on_record(f, g, i) || (walk_to(c, f.schema, g, bm, id_section(rows, g.ids) + bm, ci) matches Some(
        at,
    ) && at + bm <= g.body.len())
}

#[verifier::spinoff_prover]
proof fn row_columns_append<C: ColumnCodec>(
    c: C,
    f: V4Footer,
    needed: Seq<bool>,
    g: GroupSeq,
    i: int,
    hits: HitsSeq,
    st: PickedSeq,
    ci: int,
    pos: int,
    col: int,
    gv: spec_fn(int, usize) -> Option<CellSeq>,
)
    requires
        0 <= ci <= f.schema.columns@.len(),
        0 <= col < f.schema.columns@.len(),
        needed[col],
        slot_of(f.schema.kind(col)) == Slot::Text,
        hits.rows.len() > 0,
        st.bufs.len() == f.schema.columns@.len(),
        reached(c, f, g, i, col),
        row_columns(c, f, needed, g, i, on_record(f, g, i), hits, st, ci, pos) matches Ok(Some(_)),
        !on_record(f, g, i) ==> walk_to(
            c,
            f.schema,
            g,
            bitmap_len(f.row_groups@[i].row_count as int),
            id_section(f.row_groups@[i].row_count as int, g.ids) + bitmap_len(
                f.row_groups@[i].row_count as int,
            ),
            ci,
        ) == Some(pos),
        forall|ci: int, row: usize| #[trigger]
            gv(ci, row) == group_value(
                c,
                f,
                g,
                i,
                on_record(f, g, i),
                id_section(f.row_groups@[i].row_count as int, g.ids) + bitmap_len(
                    f.row_groups@[i].row_count as int,
                ),
                ci,
                row,
            ),
    ensures
        ({
            let r = row_columns(
                c,
                f,
                needed,
                g,
                i,
                on_record(f, g, i),
                hits,
                st,
                ci,
                pos,
            )->Ok_0->Some_0;
            &&& r.bufs.len() == st.bufs.len()
            &&& r.bufs[col] == if ci <= col {
                st.bufs[col] + Seq::new(hits.rows.len(), |t: int| gv(col, hits.rows[t]))
            } else {
                st.bufs[col]
            }
        }),
    decreases f.schema.columns@.len() - ci,
{
    let schema = f.schema;
    let rec = on_record(f, g, i);
    let rows = f.row_groups@[i].row_count as int;
    let bm = bitmap_len(rows);
    let start = id_section(rows, g.ids) + bm;
    let values = Seq::new(hits.rows.len(), |t: int| gv(col, hits.rows[t]));
    if ci < schema.columns@.len() {
        let at = if rec {
            f.col_offsets@[i]@[ci] as int
        } else {
            pos
        };
        if !needed[ci] && rec {
            row_columns_append(c, f, needed, g, i, hits, st, ci + 1, pos, col, gv);
        } else if at + bm > g.body.len() {
            if rec {
                let none = no_cells(hits.rows.len() as int);
                let mid = with_cells(schema, true, st, hits, ci, none);
                row_columns_append(c, f, needed, g, i, hits, mid, ci + 1, pos, col, gv);
                if ci == col {
                    assert(none =~= values);
                }
            } else if ci < col {
                walk_stopped(c, schema, g, bm, start, ci, col);
            }
        } else {
            let nulls = g.body.subrange(at, at + bm);
            let raw = tail(g.body, at + bm);
            let kind = schema.kind(ci);
            let next = if rec {
                pos
            } else {
                at + bm + c.extent(g.version >= 1, raw, kind)->0
            };
            if needed[ci] {
                let v = row_cells(c, kind, g.version, nulls, raw, hits.rows)->Ok_0->Some_0;
                let mid = with_dim(with_cells(schema, true, st, hits, ci, v.0), ci, v.1);
                row_columns_append(c, f, needed, g, i, hits, mid, ci + 1, next, col, gv);
                if ci == col {
                    law_extracted_alone(c, kind, g.version, nulls, raw, hits.rows, 0);
                    assert forall|t: int| 0 <= t < v.0.len() implies #[trigger] v.0[t] == gv(
                        col,
                        hits.rows[t],
                    ) by {
                        law_extracted_alone(c, kind, g.version, nulls, raw, hits.rows, t);
                    }
                    assert(v.0 =~= values);
                }
            } else {
                row_columns_append(c, f, needed, g, i, hits, st, ci + 1, next, col, gv);
            }
        }
    }
}

/// Whether numbers do not descend.
pub open spec fn in_turn(s: Seq<usize>) -> bool {
    forall|i: int, j: int| 0 <= i < j < s.len() ==> #[trigger] s[i] <= #[trigger] s[j]
}

/// How many of the first `k` numbers lie below a bound, where they do not descend.
pub open spec fn count_below(s: Seq<usize>, bound: int, k: int) -> int
    decreases k,
{
    if k <= 0 {
        0
    } else if s[k - 1] < bound {
        k
    } else {
        count_below(s, bound, k - 1)
    }
}

proof fn count_splits(s: Seq<usize>, bound: int, k: int)
    requires
        in_turn(s),
        0 <= k <= s.len(),
    ensures
        0 <= count_below(s, bound, k) <= k,
        forall|j: int|
            0 <= j < k ==> ((#[trigger] s[j]) < bound <==> j < count_below(s, bound, k)),
    decreases k,
{
    if k > 0 {
        count_splits(s, bound, k - 1);
        assert forall|j: int| 0 <= j < k implies ((#[trigger] s[j]) < bound <==> j < count_below(
            s,
            bound,
            k,
        )) by {
            if j < k - 1 {
                assert(s[j] <= s[k - 1]);
            }
        }
    }
}

proof fn hits_in_turn(lo: int, hi: int, s: Seq<usize>, a: int, b: int, k: int)
    requires
        0 <= lo <= hi,
        0 <= a <= b <= s.len() <= usize::MAX,
        0 <= k <= s.len(),
        forall|j: int| 0 <= j < s.len() ==> ((#[trigger] s[j]) < lo <==> j < a),
        forall|j: int| 0 <= j < s.len() ==> ((#[trigger] s[j]) < hi <==> j < b),
    ensures
        ({
            let h = hits_between(lo, hi, s, k);
            let top = if k < b {
                k
            } else {
                b
            };
            &&& h.rows.len() == (if top > a {
                top - a
            } else {
                0
            })
            &&& forall|t: int|
                0 <= t < h.rows.len() ==> #[trigger] h.rows[t] == s[a + t] - lo
        }),
    decreases k,
{
    if k > 0 {
        hits_in_turn(lo, hi, s, a, b, k - 1);
        let x = s[k - 1];
    }
}

#[verifier::spinoff_prover]
proof fn texts_upto_right<C: ColumnCodec>(
    c: C,
    f: V4Footer,
    file: Seq<u8>,
    needed: Seq<bool>,
    indices: Seq<usize>,
    k: int,
    st: PickedSeq,
    col: int,
)
    requires
        0 <= k <= f.row_groups@.len(),
        0 <= col < f.schema.columns@.len(),
        needed[col],
        slot_of(f.schema.kind(col)) == Slot::Text,
        indices.len() <= usize::MAX,
        in_turn(indices),
        forall|i: int|
            0 <= i < f.row_groups@.len() && (#[trigger] group_of(c, f.row_groups@[i], file)) is Ok
                ==> reached(c, f, group_of(c, f.row_groups@[i], file)->Ok_0, i, col),
        rows_upto(
            c,
            f,
            file,
            needed,
            all_hits(f.row_groups@, indices),
            indices.len() as int,
            k,
        ) == Ok::<Option<PickedSeq>, ScanError>(Some(st)),
    ensures
        st.bufs.len() == f.schema.columns@.len(),
        ({
            let m = count_below(indices, rows_before(f.row_groups@, k), indices.len() as int);
            &&& st.bufs[col].len() == m
            &&& forall|j: int|
                0 <= j < m ==> #[trigger] st.bufs[col][j] == picked_value(
                    c,
                    f,
                    file,
                    false,
                    col,
                    indices[j] as int,
                    k,
                )
        }),
    decreases k,
{
    let groups = f.row_groups@;
    let n = indices.len() as int;
    let hits = all_hits(groups, indices);
    count_splits(indices, rows_before(groups, k), n);
    if k > 0 {
        let i = k - 1;
        let lo = rows_before(groups, i);
        let hi = rows_before(groups, k);
        rows_before_monotonic(groups, i, k);
        let a = count_below(indices, lo, n);
        let b = count_below(indices, hi, n);
        count_splits(indices, lo, n);
        let before = rows_upto(c, f, file, needed, hits, n, i)->Ok_0->Some_0;
        texts_upto_right(c, f, file, needed, indices, i, before, col);
        let h = hits_of(groups, indices, i);
        assert(hits[i] == h);
        assert(a <= b) by {
            if b < a {
                assert(indices[b] < lo);
                assert(!(indices[b] < hi));
            }
        }
        hits_in_turn(lo, hi, indices, a, b, n);
        hits_facts(lo, hi, indices, n);
        assert forall|j: int| 0 <= j < a implies group_holding(groups, #[trigger] indices[j] as int, k)
            == group_holding(groups, indices[j] as int, i) by {
            assert(indices[j] < lo);
        }
        if h.rows.len() > 0 {
            let g = group_of(c, groups[i], file)->Ok_0;
            let rows = groups[i].row_count as int;
            let start = id_section(rows, g.ids) + bitmap_len(rows);
            let gv = |ci: int, row: usize|
                group_value(c, f, g, i, on_record(f, g, i), start, ci, row);
            row_columns_append(
                c,
                f,
                needed,
                g,
                i,
                h,
                with_ids(f, g, i, h, before),
                0,
                start,
                col,
                gv,
            );
            assert forall|j: int| 0 <= j < b implies #[trigger] st.bufs[col][j] == picked_value(
                c,
                f,
                file,
                false,
                col,
                indices[j] as int,
                k,
            ) by {
                if j < a {
                    assert(st.bufs[col][j] == before.bufs[col][j]);
                } else {
                    let t = j - a;
                    assert(h.rows[t] == indices[a + t] - lo);
                    assert(indices[j] < hi);
                    assert(!(indices[j] < lo));
                    assert(st.bufs[col][j] == gv(col, h.rows[t]));
                }
            }
        } else {
            assert forall|j: int| 0 <= j < b implies #[trigger] st.bufs[col][j] == picked_value(
                c,
                f,
                file,
                false,
                col,
                indices[j] as int,
                k,
            ) by {
                assert(before.bufs[col][j] == st.bufs[col][j]);
            }
        }
    } else {
        assert(count_below(indices, 0, n) == 0) by {
            if count_below(indices, 0, n) > 0 {
                assert(indices[0] < 0);
            }
        }
    }
}

impl<C: ColumnCodec> OnDemandStorage<C> {
    /// Where the numbers of the rows do not descend and lie in the table, and the columns of every row
    /// group can be reached, extracted texts stand at their places too.
    pub proof fn law_extracted_texts(
        self,
        indices: Seq<usize>,
        names: Option<Seq<Seq<char>>>,
        with_id: bool,
        ids: Seq<i64>,
        columns: Seq<(Seq<char>, RowsColumnSeq)>,
        f: V4Footer,
        file: Vec<u8>,
        q: int,
    )
        requires
            0 < indices.len() <= usize::MAX,
            f.schema.columns@.len() <= usize::MAX,
            self.footer == Some(f),
            self.file == Some(file),
            self.rows_batch(indices, names) == Ok::<Option<RowsBatchSeq>, ScanError>(
                Some(RowsBatchSeq::Rows { with_id, ids, columns }),
            ),
            !goes_quick(
                self.codec,
                f,
                file@,
                needed_of(f.schema, names),
                all_hits(f.row_groups@, indices),
                indices.len() as int,
            ),
            in_turn(indices),
            forall|j: int|
                0 <= j < indices.len() ==> (#[trigger] indices[j]) < rows_before(
                    f.row_groups@,
                    f.row_groups@.len() as int,
                ),
            0 <= q < columns.len(),
            ({
                let needed = needed_of(f.schema, names);
                let ci = needed_columns(needed, needed.len() as int)[q] as int;
                &&& slot_of(f.schema.kind(ci)) == Slot::Text
                &&& forall|i: int|
                    0 <= i < f.row_groups@.len() && (#[trigger] group_of(
                        self.codec,
                        f.row_groups@[i],
                        file@,
                    )) is Ok ==> reached(
                        self.codec,
                        f,
                        group_of(self.codec, f.row_groups@[i], file@)->Ok_0,
                        i,
                        ci,
                    )
            }),
        ensures
            ({
                let n = indices.len() as int;
                let needed = needed_of(f.schema, names);
                let ci = needed_columns(needed, needed.len() as int)[q] as int;
                let values = Seq::new(
                    n as nat,
                    |j: int|
                        picked_value(
                            self.codec,
                            f,
                            file@,
                            false,
                            ci,
                            indices[j] as int,
                            f.row_groups@.len() as int,
                        ),
                );
                columns[q] == (
                    f.schema.columns@[ci].0@,
                    RowsColumnSeq::Typed(typed_column(Slot::Text, values)),
                )
            }),
    {
        let n = indices.len() as int;
        let c = self.codec;
        let all = f.row_groups@.len() as int;
        let needed = needed_of(f.schema, names);
        let cols = needed_columns(needed, needed.len() as int);
        let ci = cols[q] as int;
        let hits = all_hits(f.row_groups@, indices);
        let st = rows_upto(c, f, file@, needed, hits, n, all)->Ok_0->Some_0;
        rows_columns_are(f.schema, needed, st, n, needed.len() as int);
        texts_upto_right(c, f, file@, needed, indices, all, st, ci);
        assert(indices[n - 1] < rows_before(f.row_groups@, all));
        let values = Seq::new(
            n as nat,
            |j: int| picked_value(c, f, file@, false, ci, indices[j] as int, all),
        );
        assert(st.bufs[ci] =~= values);
    }
}

} // verus!
