//! Batches of rows that are asked for by number.

use vstd::prelude::*;

use crate::arrays::{opt_bytes_view, opt_texts_view};
use crate::batch::names_view;
use crate::bytes::bitmap_len;
use crate::cells::{
    cell_view, cells_of, cells_view, get_cells, get_pick, pick, Cell, CellSeq, ListForm, Pick,
    PickSeq, Slot, Source, SourceSeq,
};
use crate::codec::ColumnCodec;
use crate::column::{ColumnData, ColumnSeq};
use crate::double::F64;
use crate::extract::{
    add_cells, all_hits, do_go_quick, do_names_have, get_all_hits, get_needed, get_no_cells,
    get_picked_start, get_slot, goes_quick, hits_fit, hits_view, names_have, needed_of, no_cells,
    pick_quick, picked_start, placed_row_ids, put_row_ids, quick_upto, slot_of, with_cells, Hits,
    HitsSeq, Picked, PickedSeq,
};
use crate::group::{
    get_tail, get_window, group_of, id_section, open_group, rg_bitmap_len, rg_id_section_len, tail,
    Group, GroupSeq,
};
use crate::model::{
    ColumnType, OnDemandSchema, RowGroupMeta, ScanError, V4Footer, RG_COMPRESS_NONE,
};
use crate::storage::OnDemandStorage;

verus! {

/// The dimension of a column of lists.
pub open spec fn list_dim(col: ColumnSeq) -> Option<u32> {
    match col {
        ColumnSeq::FixedList { dim, .. } => Some(dim),
        ColumnSeq::Float16List { dim, .. } => Some(dim),
        ColumnSeq::QuantizedList { dim, .. } => Some(dim),
        _ => None,
    }
}

fn get_list_dim(col: &ColumnData) -> (r: Option<u32>)
    ensures
        r == list_dim(col@),
{
    match col {
        ColumnData::FixedList { dim, .. } => Some(*dim),
        ColumnData::Float16List { dim, .. } => Some(*dim),
        ColumnData::QuantizedList { dim, .. } => Some(*dim),
        _ => None,
    }
}

/// A decoded column as a source. A failure where the width of its vectors is not known.
pub open spec fn whole_source<C: ColumnCodec>(c: C, col: ColumnSeq) -> Result<SourceSeq, ScanError> {
    match col {
        ColumnSeq::QuantizedList { dim, codec, .. } => match c.width(codec, dim as nat) {
            None => Err(ScanError::Codec),
            Some(n) => Ok(SourceSeq::Whole { col, width: n as int }),
        },
        _ => Ok(SourceSeq::Whole { col, width: 0 }),
    }
}

pub(crate) fn get_whole_source<'a, C: ColumnCodec>(c: &C, col: ColumnData) -> (r: Result<
    Source<'a>,
    ScanError,
>)
    ensures
        match r {
            Err(e) => whole_source(*c, col@) == Err::<SourceSeq, ScanError>(e),
            Ok(s) => whole_source(*c, col@) == Ok::<SourceSeq, ScanError>(s@) && s is Whole,
        },
{
    let width: usize = match &col {
        ColumnData::QuantizedList { dim, codec, .. } => match c.row_width(*codec, *dim as usize) {
            None => {
                return Err(ScanError::Codec);
            },
            Some(n) => n,
        },
        _ => 0,
    };
    Ok(Source::Whole { col, width })
}

/// The values of rows of one column, with the dimension where it holds lists. `None` where a
/// dictionary of strings cannot be read.
#[verifier::opaque]
pub open spec fn row_cells<C: ColumnCodec>(
    c: C,
    kind: ColumnType,
    version: u8,
    nulls: Seq<u8>,
    col: Seq<u8>,
    rows: Seq<usize>,
) -> Result<Option<(Seq<Option<CellSeq>>, Option<u32>)>, ScanError> {
    match pick(c, kind, version, col) {
        PickSeq::From(src) => match cells_of(src, slot_of(kind), true, nulls, rows) {
            Err(e) => Err(e),
            Ok(v) => Ok(Some((v, None))),
        },
        PickSeq::BadDict => Ok(None),
        PickSeq::BadReals => Err(ScanError::Codec),
        _ => match c.decoded(version >= 1, col, kind) {
            None => Err(ScanError::Codec),
            Some((whole, _)) => if slot_of(kind) == Slot::List {
                match whole_source(c, whole) {
                    Err(e) => Err(e),
                    Ok(src) => match cells_of(src, Slot::List, true, nulls, rows) {
                        Err(e) => Err(e),
                        Ok(v) => Ok(Some((v, list_dim(whole)))),
                    },
                }
            } else {
                match cells_of(
                    SourceSeq::Whole { col: whole, width: 0 },
                    slot_of(kind),
                    true,
                    nulls,
                    rows,
                ) {
                    Err(e) => Err(e),
                    Ok(v) => Ok(Some((v, None))),
                }
            },
        },
    }
}

fn get_row_cells<C: ColumnCodec>(
    c: &C,
    kind: ColumnType,
    version: u8,
    nulls: &[u8],
    col: &[u8],
    rows: &Vec<usize>,
) -> (r: Result<Option<(Vec<Option<Cell>>, Option<u32>)>, ScanError>)
    ensures
        ({
            let want = row_cells(*c, kind, version, nulls@, col@, rows@);
            match r {
                Err(e) => want == Err::<Option<(Seq<Option<CellSeq>>, Option<u32>)>, ScanError>(e),
                Ok(None) => want == Ok::<Option<(Seq<Option<CellSeq>>, Option<u32>)>, ScanError>(
                    None,
                ),
                Ok(Some((v, dim))) => want == Ok::<
                    Option<(Seq<Option<CellSeq>>, Option<u32>)>,
                    ScanError,
                >(Some((cells_view(v@), dim))) && v@.len() == rows@.len(),
            }
        }),
{
    reveal(row_cells);
    let slot: Slot = get_slot(kind);
    match get_pick(c, kind, version, col) {
        Pick::From(src) => {
            return match get_cells(&src, slot, true, nulls, rows) {
                Err(e) => Err(e),
                Ok(v) => Ok(Some((v, None))),
            };
        },
        Pick::BadDict => {
            return Ok(None);
        },
        Pick::BadReals => {
            return Err(ScanError::Codec);
        },
        _ => {},
    }
    let whole: ColumnData = match c.read_column(version >= 1, col, kind) {
        None => {
            return Err(ScanError::Codec);
        },
        Some((v, _)) => v,
    };
    if slot == Slot::List {
        let dim: Option<u32> = get_list_dim(&whole);
        match get_whole_source(c, whole) {
            Err(e) => Err(e),
            Ok(src) => match get_cells(&src, slot, true, nulls, rows) {
                Err(e) => Err(e),
                Ok(v) => Ok(Some((v, dim))),
            },
        }
    } else {
        let src: Source = Source::Whole { col: whole, width: 0 };
        match get_cells(&src, slot, true, nulls, rows) {
            Err(e) => Err(e),
            Ok(v) => Ok(Some((v, None))),
        }
    }
}

/// A collection with a dimension on record.
pub open spec fn with_dim(st: PickedSeq, ci: int, dim: Option<u32>) -> PickedSeq {
    match dim {
        None => st,
        Some(d) => PickedSeq { dims: st.dims.update(ci, d), ..st },
    }
}

/// A collection with the values of the columns from `ci` on of one row group, which is walked over
/// from `pos` on, or whose columns are read at their places on record. `None` where a dictionary of
/// strings cannot be read.
pub open spec fn row_columns<C: ColumnCodec>(
    c: C,
    f: V4Footer,
    needed: Seq<bool>,
    g: GroupSeq,
    i: int,
    on_record: bool,
    hits: HitsSeq,
    st: PickedSeq,
    ci: int,
    pos: int,
) -> Result<Option<PickedSeq>, ScanError>
    decreases f.schema.columns@.len() - ci,
{
    let schema = f.schema;
    let bm = bitmap_len(f.row_groups@[i].row_count as int);
    let at = if on_record {
        f.col_offsets@[i]@[ci] as int
    } else {
        pos
    };
    if ci >= schema.columns@.len() {
        Ok(Some(st))
    } else if !needed[ci] && on_record {
        row_columns(c, f, needed, g, i, on_record, hits, st, ci + 1, pos)
    } else if at + bm > g.body.len() {
        if on_record {
            let none = no_cells(hits.rows.len() as int);
            row_columns(
                c,
                f,
                needed,
                g,
                i,
                on_record,
                hits,
                with_cells(schema, true, st, hits, ci, none),
                ci + 1,
                pos,
            )
        } else {
            Ok(Some(st))
        }
    } else {
        let nulls = g.body.subrange(at, at + bm);
        let col = tail(g.body, at + bm);
        let now = if needed[ci] {
            match row_cells(c, schema.kind(ci), g.version, nulls, col, hits.rows) {
                Err(e) => Err(e),
                Ok(None) => Ok(None),
                Ok(Some((cells, dim))) => Ok(
                    Some(with_dim(with_cells(schema, true, st, hits, ci, cells), ci, dim)),
                ),
            }
        } else {
            Ok(Some(st))
        };
        match now {
            Err(e) => Err(e),
            Ok(None) => Ok(None),
            Ok(Some(next)) => if on_record {
                row_columns(c, f, needed, g, i, on_record, hits, next, ci + 1, pos)
            } else {
                match c.extent(g.version >= 1, col, schema.kind(ci)) {
                    None => Err(ScanError::Codec),
                    Some(n) => row_columns(
                        c,
                        f,
                        needed,
                        g,
                        i,
                        on_record,
                        hits,
                        next,
                        ci + 1,
                        at + bm + n,
                    ),
                }
            },
        }
    }
}

/// What a step of a collection comes to: done, or given up.
pub open spec fn step_is(
    r: Result<bool, ScanError>,
    now: PickedSeq,
    want: Result<Option<PickedSeq>, ScanError>,
) -> bool {
    match r {
        Err(e) => want == Err::<Option<PickedSeq>, ScanError>(e),
        Ok(false) => want == Ok::<Option<PickedSeq>, ScanError>(None),
        Ok(true) => want == Ok::<Option<PickedSeq>, ScanError>(Some(now)),
    }
}

#[verifier::rlimit(60)]
fn add_row_columns<C: ColumnCodec>(
    c: &C,
    f: &V4Footer,
    needed: &Vec<bool>,
    g: &Group,
    i: usize,
    on_record: bool,
    hits: &Hits,
    n: usize,
    start: u64,
    st: &mut Picked,
) -> (r: Result<bool, ScanError>)
    requires
        i < f.row_groups@.len(),
        needed@.len() == f.schema.columns@.len(),
        on_record ==> i < f.col_offsets@.len() && f.col_offsets@[i as int]@.len()
            >= f.schema.columns@.len(),
        old(st).fits(f.schema, needed@, true, n as int),
        hits.outs@.len() == hits.rows@.len(),
        forall|j: int| 0 <= j < hits.outs@.len() ==> #[trigger] hits.outs@[j] < n,
    ensures
        r is Ok ==> final(st).fits(f.schema, needed@, true, n as int),
        step_is(
            r,
            final(st)@,
            row_columns(
                *c,
                *f,
                needed@,
                g@,
                i as int,
                on_record,
                hits@,
                old(st)@,
                0,
                start as int,
            ),
        ),
{
    let ghost want = row_columns(
        *c,
        *f,
        needed@,
        g@,
        i as int,
        on_record,
        hits@,
        st@,
        0,
        start as int,
    );
    let body: &[u8] = g.body();
    let bm: u64 = rg_bitmap_len(f.row_groups[i].row_count);
    let mut pos: u64 = start;
    let mut ci: usize = 0;
    while ci < f.schema.columns.len()
        invariant
            ci <= f.schema.columns@.len(),
            i < f.row_groups@.len(),
            needed@.len() == f.schema.columns@.len(),
            on_record ==> i < f.col_offsets@.len() && f.col_offsets@[i as int]@.len()
                >= f.schema.columns@.len(),
            st.fits(f.schema, needed@, true, n as int),
            hits.outs@.len() == hits.rows@.len(),
            forall|j: int| 0 <= j < hits.outs@.len() ==> #[trigger] hits.outs@[j] < n,
            body@ == g@.body,
            bm == bitmap_len(f.row_groups@[i as int].row_count as int),
            want == row_columns(
                *c,
                *f,
                needed@,
                g@,
                i as int,
                on_record,
                hits@,
                old(st)@,
                0,
                start as int,
            ),
            want == row_columns(
                *c,
                *f,
                needed@,
                g@,
                i as int,
                on_record,
                hits@,
                st@,
                ci as int,
                pos as int,
            ),
        decreases f.schema.columns@.len() - ci,
    {
        if !needed[ci] && on_record {
            ci = ci + 1;
            continue ;
        }
        let at: u64 = if on_record {
            f.col_offsets[i][ci] as u64
        } else {
            pos
        };
        let nulls: &[u8] = match get_window(body, at, bm) {
            None => {
                if on_record {
                    let none: Vec<Option<Cell>> = get_no_cells(hits.rows.len());
                    add_cells(&f.schema, Ghost(needed@), true, n, st, hits, ci, none);
                    ci = ci + 1;
                    continue ;
                }
                return Ok(true);
            },
            Some(w) => w,
        };
        let from: usize = (at + bm) as usize;
        let col: &[u8] = get_tail(body, from);
        let kind: ColumnType = f.schema.columns[ci].1;
        if needed[ci] {
            match get_row_cells(c, kind, g.version, nulls, col, &hits.rows) {
                Err(e) => {
                    return Err(e);
                },
                Ok(None) => {
                    return Ok(false);
                },
                Ok(Some((cells, dim))) => {
                    add_cells(&f.schema, Ghost(needed@), true, n, st, hits, ci, cells);
                    if let Some(d) = dim {
                        let ghost was = st@;
                        st.dims.set(ci, d);
                        assert(st@ =~= with_dim(was, ci as int, dim));
                    }
                },
            }
        }
        if !on_record {
            match c.skip_column(g.version >= 1, col, kind) {
                None => {
                    return Err(ScanError::Codec);
                },
                Some(used) => {
                    if used > body.len() - from {
                        assert(row_columns(
                            *c,
                            *f,
                            needed@,
                            g@,
                            i as int,
                            on_record,
                            hits@,
                            st@,
                            ci + 1,
                            from + used,
                        ) == Ok::<Option<PickedSeq>, ScanError>(Some(st@)));
                        return Ok(true);
                    }
                    pos = (from + used) as u64;
                },
            }
        }
        ci = ci + 1;
    }
    Ok(true)
}

/// A collection after row group `i`. `None` where a dictionary of strings cannot be read.
pub open spec fn row_group<C: ColumnCodec>(
    c: C,
    f: V4Footer,
    file: Seq<u8>,
    needed: Seq<bool>,
    hits: HitsSeq,
    i: int,
    st: PickedSeq,
) -> Result<Option<PickedSeq>, ScanError> {
    let meta = f.row_groups@[i];
    let rows = meta.row_count as int;
    if hits.rows.len() == 0 {
        Ok(Some(st))
    } else {
        match group_of(c, meta, file) {
            Err(e) => Err(e),
            Ok(g) => row_columns(
                c,
                f,
                needed,
                g,
                i,
                g.flag == RG_COMPRESS_NONE && g.version >= 1 && i < f.col_offsets@.len()
                    && f.col_offsets@[i]@.len() >= f.schema.columns@.len(),
                hits,
                PickedSeq {
                    ids: placed_row_ids(
                        g.body,
                        meta.min_id,
                        g.ids,
                        hits,
                        st.ids,
                        hits.rows.len() as int,
                    ),
                    ..st
                },
                0,
                id_section(rows, g.ids) + bitmap_len(rows),
            ),
        }
    }
}

/// What is collected from the first `k` row groups.
pub open spec fn rows_upto<C: ColumnCodec>(
    c: C,
    f: V4Footer,
    file: Seq<u8>,
    needed: Seq<bool>,
    hits: Seq<HitsSeq>,
    n: int,
    k: int,
) -> Result<Option<PickedSeq>, ScanError>
    decreases k,
{
    if k <= 0 {
        Ok(Some(picked_start(f.schema, needed, true, n)))
    } else {
        match rows_upto(c, f, file, needed, hits, n, k - 1) {
            Ok(Some(st)) => row_group(c, f, file, needed, hits[k - 1], k - 1, st),
            other => other,
        }
    }
}

proof fn rows_upto_over<C: ColumnCodec>(
    c: C,
    f: V4Footer,
    file: Seq<u8>,
    needed: Seq<bool>,
    hits: Seq<HitsSeq>,
    n: int,
    j: int,
    k: int,
)
    requires
        0 <= j <= k,
        !(rows_upto(c, f, file, needed, hits, n, j) matches Ok(Some(_))),
    ensures
        rows_upto(c, f, file, needed, hits, n, k) == rows_upto(c, f, file, needed, hits, n, j),
    decreases k,
{
    if j < k {
        rows_upto_over(c, f, file, needed, hits, n, j, k - 1);
    }
}

fn add_row_group<C: ColumnCodec>(
    c: &C,
    f: &V4Footer,
    file: &[u8],
    needed: &Vec<bool>,
    hits: &Hits,
    i: usize,
    n: usize,
    st: &mut Picked,
) -> (r: Result<bool, ScanError>)
    requires
        i < f.row_groups@.len(),
        needed@.len() == f.schema.columns@.len(),
        old(st).fits(f.schema, needed@, true, n as int),
        hits.outs@.len() == hits.rows@.len(),
        forall|j: int| 0 <= j < hits.outs@.len() ==> #[trigger] hits.outs@[j] < n,
        forall|j: int| 0 <= j < hits.rows@.len() ==> #[trigger] hits.rows@[j] <= u32::MAX,
    ensures
        r is Ok ==> final(st).fits(f.schema, needed@, true, n as int),
        step_is(
            r,
            final(st)@,
            row_group(*c, *f, file@, needed@, hits@, i as int, old(st)@),
        ),
{
    let meta: RowGroupMeta = f.row_groups[i];
    if hits.rows.len() == 0 {
        return Ok(true);
    }
    match open_group(c, &meta, file) {
        Err(e) => Err(e),
        Ok(g) => {
            let ghost was = st@;
            put_row_ids(g.body(), meta.min_id, g.ids, hits, &mut st.ids);
            assert(st@ =~= PickedSeq { ids: st.ids@, ..was });
            let on_record: bool = g.flag == RG_COMPRESS_NONE && g.version >= 1 && i
                < f.col_offsets.len() && f.col_offsets[i].len() >= f.schema.columns.len();
            let start: u64 = rg_id_section_len(meta.row_count, g.ids) + rg_bitmap_len(
                meta.row_count,
            );
            add_row_columns(c, f, needed, &g, i, on_record, hits, n, start, st)
        },
    }
}

fn pick_rows<C: ColumnCodec>(
    c: &C,
    f: &V4Footer,
    file: &[u8],
    needed: &Vec<bool>,
    hits: &Vec<Hits>,
    n: usize,
) -> (r: Result<Option<Picked>, ScanError>)
    requires
        needed@.len() == f.schema.columns@.len(),
        hits_fit(f.row_groups@, hits_view(hits@), n as int),
    ensures
        ({
            let want = rows_upto(
                *c,
                *f,
                file@,
                needed@,
                hits_view(hits@),
                n as int,
                hits@.len() as int,
            );
            match r {
                Err(e) => want == Err::<Option<PickedSeq>, ScanError>(e),
                Ok(None) => want == Ok::<Option<PickedSeq>, ScanError>(None),
                Ok(Some(st)) => want == Ok::<Option<PickedSeq>, ScanError>(Some(st@)) && st.fits(
                    f.schema,
                    needed@,
                    true,
                    n as int,
                ),
            }
        }),
{
    let ghost hv = hits_view(hits@);
    let ghost all = hits@.len() as int;
    let mut st: Picked = get_picked_start(&f.schema, needed, true, n);
    let mut i: usize = 0;
    while i < hits.len()
        invariant
            i <= hits@.len(),
            all == hits@.len(),
            needed@.len() == f.schema.columns@.len(),
            hv == hits_view(hits@),
            hits_fit(f.row_groups@, hv, n as int),
            st.fits(f.schema, needed@, true, n as int),
            rows_upto(*c, *f, file@, needed@, hv, n as int, i as int) == Ok::<
                Option<PickedSeq>,
                ScanError,
            >(Some(st@)),
        decreases hits@.len() - i,
    {
        let h: &Hits = &hits[i];
        assert(hv[i as int] == h@);
        proof {
            assert forall|j: int| 0 <= j < h.outs@.len() implies #[trigger] h.outs@[j] < n by {
                assert(hv[i as int].outs[j] < n);
            }
            assert forall|j: int| 0 <= j < h.rows@.len() implies #[trigger] h.rows@[j]
                <= u32::MAX by {
                assert(hv[i as int].rows[j] < f.row_groups@[i as int].row_count);
            }
        }
        match add_row_group(c, f, file, needed, h, i, n, &mut st) {
            Err(e) => {
                proof {
                    rows_upto_over(*c, *f, file@, needed@, hv, n as int, i + 1, all);
                }
                return Err(e);
            },
            Ok(false) => {
                proof {
                    rows_upto_over(*c, *f, file@, needed@, hv, n as int, i + 1, all);
                }
                return Ok(None);
            },
            Ok(true) => {},
        }
        i = i + 1;
    }
    Ok(Some(st))
}

/// A column of optional values.
#[derive(Debug, PartialEq, Eq)]
pub enum MmapBatchColumn {
    I64(Vec<Option<i64>>),
    F64(Vec<Option<F64>>),
    Str(Vec<Option<String>>),
    Bool(Vec<Option<bool>>),
    Bin(Vec<Option<Vec<u8>>>),
}

/// A column of optional values, as sequences.
#[verifier::ext_equal]
pub enum BatchColumnSeq {
    I64(Seq<Option<i64>>),
    F64(Seq<Option<F64>>),
    Str(Seq<Option<Seq<char>>>),
    Bool(Seq<Option<bool>>),
    Bin(Seq<Option<Seq<u8>>>),
}

impl View for MmapBatchColumn {
    type V = BatchColumnSeq;

    open spec fn view(&self) -> BatchColumnSeq {
        match *self {
            MmapBatchColumn::I64(v) => BatchColumnSeq::I64(v@),
            MmapBatchColumn::F64(v) => BatchColumnSeq::F64(v@),
            MmapBatchColumn::Str(v) => BatchColumnSeq::Str(opt_texts_view(v@)),
            MmapBatchColumn::Bool(v) => BatchColumnSeq::Bool(v@),
            MmapBatchColumn::Bin(v) => BatchColumnSeq::Bin(opt_bytes_view(v@)),
        }
    }
}

/// The integer of a value.
pub open spec fn int_of(c: Option<CellSeq>) -> Option<i64> {
    match c {
        Some(CellSeq::Int(v)) => Some(v),
        _ => None,
    }
}

/// The double of a value.
pub open spec fn real_of_cell(c: Option<CellSeq>) -> Option<F64> {
    match c {
        Some(CellSeq::Real(v)) => Some(v),
        _ => None,
    }
}

/// The text of a value.
pub open spec fn text_of_cell(c: Option<CellSeq>) -> Option<Seq<char>> {
    match c {
        Some(CellSeq::Text(v)) => Some(v),
        _ => None,
    }
}

/// The truth of a value.
pub open spec fn truth_of(c: Option<CellSeq>) -> Option<bool> {
    match c {
        Some(CellSeq::Truth(v)) => Some(v),
        _ => None,
    }
}

/// The bytes of a value.
pub open spec fn bytes_of(c: Option<CellSeq>) -> Option<Seq<u8>> {
    match c {
        Some(CellSeq::Bytes(v)) => Some(v),
        _ => None,
    }
}

/// Values as a column of their kind; texts for those without a kind of their own.
pub open spec fn typed_column(slot: Slot, cells: Seq<Option<CellSeq>>) -> BatchColumnSeq {
    match slot {
        Slot::Int => BatchColumnSeq::I64(Seq::new(cells.len(), |i: int| int_of(cells[i]))),
        Slot::Real => BatchColumnSeq::F64(Seq::new(cells.len(), |i: int| real_of_cell(cells[i]))),
        Slot::Truth => BatchColumnSeq::Bool(Seq::new(cells.len(), |i: int| truth_of(cells[i]))),
        Slot::Bytes => BatchColumnSeq::Bin(Seq::new(cells.len(), |i: int| bytes_of(cells[i]))),
        _ => BatchColumnSeq::Str(Seq::new(cells.len(), |i: int| text_of_cell(cells[i]))),
    }
}

fn typed_ints(cells: &Vec<Option<Cell>>) -> (r: Vec<Option<i64>>)
    ensures
        MmapBatchColumn::I64(r)@ == typed_column(Slot::Int, cells_view(cells@)),
{
    let mut out: Vec<Option<i64>> = Vec::with_capacity(cells.len());
    let mut i: usize = 0;
    while i < cells.len()
        invariant
            i <= cells@.len(),
            out@.len() == i,
            forall|k: int| 0 <= k < i ==> #[trigger] out@[k] == int_of(cells_view(cells@)[k]),
        decreases cells@.len() - i,
    {
        match &cells[i] {
            Some(Cell::Int(v)) => {
                out.push(Some(*v));
            },
            _ => {
                out.push(None);
            },
        }
        i = i + 1;
    }
    let ghost all = cells_view(cells@);
    assert(out@ =~= Seq::new(all.len(), |i: int| int_of(all[i])));
    out
}

fn typed_reals(cells: &Vec<Option<Cell>>) -> (r: Vec<Option<F64>>)
    ensures
        MmapBatchColumn::F64(r)@ == typed_column(Slot::Real, cells_view(cells@)),
{
    let mut out: Vec<Option<F64>> = Vec::with_capacity(cells.len());
    let mut i: usize = 0;
    while i < cells.len()
        invariant
            i <= cells@.len(),
            out@.len() == i,
            forall|k: int| 0 <= k < i ==> #[trigger] out@[k] == real_of_cell(cells_view(cells@)[k]),
        decreases cells@.len() - i,
    {
        match &cells[i] {
            Some(Cell::Real(v)) => {
                out.push(Some(*v));
            },
            _ => {
                out.push(None);
            },
        }
        i = i + 1;
    }
    let ghost all = cells_view(cells@);
    assert(out@ =~= Seq::new(all.len(), |i: int| real_of_cell(all[i])));
    out
}

fn typed_truths(cells: &Vec<Option<Cell>>) -> (r: Vec<Option<bool>>)
    ensures
        MmapBatchColumn::Bool(r)@ == typed_column(Slot::Truth, cells_view(cells@)),
{
    let mut out: Vec<Option<bool>> = Vec::with_capacity(cells.len());
    let mut i: usize = 0;
    while i < cells.len()
        invariant
            i <= cells@.len(),
            out@.len() == i,
            forall|k: int| 0 <= k < i ==> #[trigger] out@[k] == truth_of(cells_view(cells@)[k]),
        decreases cells@.len() - i,
    {
        match &cells[i] {
            Some(Cell::Truth(v)) => {
                out.push(Some(*v));
            },
            _ => {
                out.push(None);
            },
        }
        i = i + 1;
    }
    let ghost all = cells_view(cells@);
    assert(out@ =~= Seq::new(all.len(), |i: int| truth_of(all[i])));
    out
}

fn typed_texts(cells: &Vec<Option<Cell>>) -> (r: Vec<Option<String>>)
    ensures
        MmapBatchColumn::Str(r)@ == typed_column(Slot::Text, cells_view(cells@)),
        r@.len() == cells@.len(),
{
    let ghost all = cells_view(cells@);
    let mut out: Vec<Option<String>> = Vec::with_capacity(cells.len());
    let mut i: usize = 0;
    while i < cells.len()
        invariant
            i <= cells@.len(),
            out@.len() == i,
            all == cells_view(cells@),
            forall|k: int|
                0 <= k < i ==> crate::arrays::text_view(#[trigger] out@[k]) == text_of_cell(all[k]),
        decreases cells@.len() - i,
    {
        assert(all[i as int] == cell_view(cells@[i as int]));
        match &cells[i] {
            Some(Cell::Text(v)) => {
                out.push(Some(v.as_str().to_owned()));
            },
            _ => {
                out.push(None);
            },
        }
        i = i + 1;
    }
    assert(opt_texts_view(out@) =~= Seq::new(all.len(), |i: int| text_of_cell(all[i])));
    out
}

fn typed_bytes(cells: &Vec<Option<Cell>>) -> (r: Vec<Option<Vec<u8>>>)
    ensures
        MmapBatchColumn::Bin(r)@ == typed_column(Slot::Bytes, cells_view(cells@)),
{
    let ghost all = cells_view(cells@);
    let mut out: Vec<Option<Vec<u8>>> = Vec::with_capacity(cells.len());
    let mut i: usize = 0;
    while i < cells.len()
        invariant
            i <= cells@.len(),
            out@.len() == i,
            all == cells_view(cells@),
            forall|k: int|
                0 <= k < i ==> crate::column::bytes_view(#[trigger] out@[k]) == bytes_of(all[k]),
        decreases cells@.len() - i,
    {
        assert(all[i as int] == cell_view(cells@[i as int]));
        match &cells[i] {
            Some(Cell::Bytes(v)) => {
                out.push(Some(vstd::slice::slice_to_vec(v.as_slice())));
            },
            _ => {
                out.push(None);
            },
        }
        i = i + 1;
    }
    assert(opt_bytes_view(out@) =~= Seq::new(all.len(), |i: int| bytes_of(all[i])));
    out
}

/// Turns values into a column of their kind.
pub(crate) fn make_typed_column(slot: Slot, cells: &Vec<Option<Cell>>) -> (r: MmapBatchColumn)
    ensures
        r@ == typed_column(slot, cells_view(cells@)),
{
    match slot {
        Slot::Int => MmapBatchColumn::I64(typed_ints(cells)),
        Slot::Real => MmapBatchColumn::F64(typed_reals(cells)),
        Slot::Truth => MmapBatchColumn::Bool(typed_truths(cells)),
        Slot::Bytes => MmapBatchColumn::Bin(typed_bytes(cells)),
        _ => MmapBatchColumn::Str(typed_texts(cells)),
    }
}

/// A column of a batch of rows.
#[derive(Debug, PartialEq, Eq)]
pub enum RowsColumn {
    /// Values of one kind.
    Typed(MmapBatchColumn),
    /// References to bytes that are kept elsewhere.
    Blobs(Vec<Option<Vec<u8>>>),
    /// Lists of `dim` components each.
    Lists { rows: Vec<Option<(Vec<u8>, ListForm)>>, dim: u32 },
    /// Texts, and integers that are shown as texts.
    Other(Vec<Option<Cell>>),
}

/// A column of a batch of rows, as sequences.
#[verifier::ext_equal]
pub enum RowsColumnSeq {
    Typed(BatchColumnSeq),
    Blobs(Seq<Option<Seq<u8>>>),
    Lists { rows: Seq<Option<(Seq<u8>, ListForm)>>, dim: u32 },
    Other(Seq<Option<CellSeq>>),
}

/// A list, where there is one.
pub open spec fn list_view(r: Option<(Vec<u8>, ListForm)>) -> Option<(Seq<u8>, ListForm)> {
    match r {
        None => None,
        Some((b, form)) => Some((b@, form)),
    }
}

/// Lists as sequences.
pub open spec fn lists_view(v: Seq<Option<(Vec<u8>, ListForm)>>) -> Seq<
    Option<(Seq<u8>, ListForm)>,
> {
    Seq::new(v.len(), |i: int| list_view(v[i]))
}

impl View for RowsColumn {
    type V = RowsColumnSeq;

    open spec fn view(&self) -> RowsColumnSeq {
        match *self {
            RowsColumn::Typed(c) => RowsColumnSeq::Typed(c@),
            RowsColumn::Blobs(v) => RowsColumnSeq::Blobs(opt_bytes_view(v@)),
            RowsColumn::Lists { rows, dim } => RowsColumnSeq::Lists {
                rows: lists_view(rows@),
                dim,
            },
            RowsColumn::Other(v) => RowsColumnSeq::Other(cells_view(v@)),
        }
    }
}

/// The list of a value, where it has the right dimension.
pub open spec fn list_of(c: Option<CellSeq>, d: u32) -> Option<(Seq<u8>, ListForm)> {
    match c {
        Some(CellSeq::List { bytes, dim, form }) => if dim == d {
            Some((bytes, form))
        } else {
            None
        },
        _ => None,
    }
}

/// A value that is shown as a text.
pub open spec fn shown(c: Option<CellSeq>) -> Option<CellSeq> {
    match c {
        Some(CellSeq::Text(_)) => c,
        Some(CellSeq::Int(_)) => c,
        _ => None,
    }
}

fn get_lists(cells: &Vec<Option<Cell>>, d: u32) -> (r: Vec<Option<(Vec<u8>, ListForm)>>)
    ensures
        lists_view(r@) == Seq::new(cells@.len(), |i: int| list_of(cells_view(cells@)[i], d)),
{
    let ghost all = cells_view(cells@);
    let mut out: Vec<Option<(Vec<u8>, ListForm)>> = Vec::with_capacity(cells.len());
    let mut i: usize = 0;
    while i < cells.len()
        invariant
            i <= cells@.len(),
            out@.len() == i,
            all == cells_view(cells@),
            forall|k: int| 0 <= k < i ==> list_view(#[trigger] out@[k]) == list_of(all[k], d),
        decreases cells@.len() - i,
    {
        assert(all[i as int] == cell_view(cells@[i as int]));
        match &cells[i] {
            Some(Cell::List { bytes, dim, form }) => {
                if *dim == d {
                    out.push(Some((vstd::slice::slice_to_vec(bytes.as_slice()), *form)));
                } else {
                    out.push(None);
                }
            },
            _ => {
                out.push(None);
            },
        }
        i = i + 1;
    }
    assert(lists_view(out@) =~= Seq::new(cells@.len(), |i: int| list_of(all[i], d)));
    out
}

fn get_shown(cells: &Vec<Option<Cell>>) -> (r: Vec<Option<Cell>>)
    ensures
        cells_view(r@) == Seq::new(cells@.len(), |i: int| shown(cells_view(cells@)[i])),
{
    let ghost all = cells_view(cells@);
    let mut out: Vec<Option<Cell>> = Vec::with_capacity(cells.len());
    let mut i: usize = 0;
    while i < cells.len()
        invariant
            i <= cells@.len(),
            out@.len() == i,
            all == cells_view(cells@),
            forall|k: int| 0 <= k < i ==> cell_view(#[trigger] out@[k]) == shown(all[k]),
        decreases cells@.len() - i,
    {
        assert(all[i as int] == cell_view(cells@[i as int]));
        match &cells[i] {
            Some(Cell::Text(t)) => {
                out.push(Some(Cell::Text(t.as_str().to_owned())));
            },
            Some(Cell::Int(v)) => {
                out.push(Some(Cell::Int(*v)));
            },
            _ => {
                out.push(None);
            },
        }
        i = i + 1;
    }
    assert(cells_view(out@) =~= Seq::new(cells@.len(), |i: int| shown(all[i])));
    out
}

/// The column behind the values that were collected.
pub open spec fn rows_column(kind: ColumnType, dim: u32, cells: Seq<Option<CellSeq>>, n: int) -> RowsColumnSeq {
    match slot_of(kind) {
        Slot::Bytes => if kind is Blob {
            RowsColumnSeq::Blobs(Seq::new(cells.len(), |i: int| bytes_of(cells[i])))
        } else {
            RowsColumnSeq::Typed(typed_column(Slot::Bytes, cells))
        },
        Slot::List => if dim > 0 {
            RowsColumnSeq::Lists {
                rows: Seq::new(cells.len(), |i: int| list_of(cells[i], dim)),
                dim,
            }
        } else {
            RowsColumnSeq::Typed(typed_column(Slot::Text, no_cells(n)))
        },
        Slot::Other => RowsColumnSeq::Other(Seq::new(cells.len(), |i: int| shown(cells[i]))),
        slot => RowsColumnSeq::Typed(typed_column(slot, cells)),
    }
}

fn make_rows_column(kind: ColumnType, dim: u32, cells: &Vec<Option<Cell>>, n: usize) -> (r: RowsColumn)
    ensures
        r@ == rows_column(kind, dim, cells_view(cells@), n as int),
{
    let slot: Slot = get_slot(kind);
    match slot {
        Slot::Bytes => {
            if kind == ColumnType::Blob {
                RowsColumn::Blobs(typed_bytes(cells))
            } else {
                RowsColumn::Typed(MmapBatchColumn::Bin(typed_bytes(cells)))
            }
        },
        Slot::List => {
            if dim > 0 {
                let rows: Vec<Option<(Vec<u8>, ListForm)>> = get_lists(cells, dim);
                RowsColumn::Lists { rows, dim }
            } else {
                let none: Vec<Option<Cell>> = get_no_cells(n);
                RowsColumn::Typed(make_typed_column(Slot::Text, &none))
            }
        },
        Slot::Other => RowsColumn::Other(get_shown(cells)),
        _ => RowsColumn::Typed(make_typed_column(slot, cells)),
    }
}

/// A batch of rows that were asked for by number.
#[derive(Debug, PartialEq, Eq)]
pub enum RowsBatch {
    /// Neither rows nor fields.
    NoFields,
    /// The identifiers of the rows, whether they are shown, and the columns under their names.
    Rows { with_id: bool, ids: Vec<i64>, columns: Vec<(String, RowsColumn)> },
}

/// A batch of rows that were asked for by number, as sequences.
#[verifier::ext_equal]
pub enum RowsBatchSeq {
    NoFields,
    Rows { with_id: bool, ids: Seq<i64>, columns: Seq<(Seq<char>, RowsColumnSeq)> },
}

/// Named columns as sequences.
pub open spec fn rows_columns_view(v: Seq<(String, RowsColumn)>) -> Seq<(Seq<char>, RowsColumnSeq)> {
    Seq::new(v.len(), |i: int| (v[i].0@, v[i].1@))
}

impl View for RowsBatch {
    type V = RowsBatchSeq;

    open spec fn view(&self) -> RowsBatchSeq {
        match *self {
            RowsBatch::NoFields => RowsBatchSeq::NoFields,
            RowsBatch::Rows { with_id, ids, columns } => RowsBatchSeq::Rows {
                with_id,
                ids: ids@,
                columns: rows_columns_view(columns@),
            },
        }
    }
}

/// The columns that were asked for, among the first `k`.
pub open spec fn rows_columns(
    schema: OnDemandSchema,
    needed: Seq<bool>,
    st: PickedSeq,
    n: int,
    k: int,
) -> Seq<(Seq<char>, RowsColumnSeq)>
    decreases k,
{
    if k <= 0 {
        Seq::empty()
    } else {
        let before = rows_columns(schema, needed, st, n, k - 1);
        if needed[k - 1] {
            before.push(
                (
                    schema.columns@[k - 1].0@,
                    rows_column(schema.kind(k - 1), st.dims[k - 1], st.bufs[k - 1], n),
                ),
            )
        } else {
            before
        }
    }
}

fn make_rows_columns(schema: &OnDemandSchema, needed: &Vec<bool>, st: &Picked, n: usize) -> (r: Vec<
    (String, RowsColumn),
>)
    requires
        needed@.len() == schema.columns@.len(),
        st.bufs@.len() == schema.columns@.len(),
        st.dims@.len() == schema.columns@.len(),
    ensures
        rows_columns_view(r@) == rows_columns(
            *schema,
            needed@,
            st@,
            n as int,
            schema.columns@.len() as int,
        ),
{
    let mut out: Vec<(String, RowsColumn)> = Vec::new();
    let mut k: usize = 0;
    assert(rows_columns_view(out@) =~= Seq::empty());
    while k < schema.columns.len()
        invariant
            k <= schema.columns@.len(),
            needed@.len() == schema.columns@.len(),
            st.bufs@.len() == schema.columns@.len(),
            st.dims@.len() == schema.columns@.len(),
            rows_columns_view(out@) == rows_columns(*schema, needed@, st@, n as int, k as int),
        decreases schema.columns@.len() - k,
    {
        if needed[k] {
            assert(st@.bufs[k as int] == cells_view(st.bufs@[k as int]@));
            let ghost before = rows_columns_view(out@);
            let col: RowsColumn = make_rows_column(
                schema.columns[k].1,
                st.dims[k],
                &st.bufs[k],
                n,
            );
            let ghost now = col@;
            out.push((schema.columns[k].0.as_str().to_owned(), col));
            assert(rows_columns_view(out@) =~= before.push((schema.columns@[k as int].0@, now)));
        }
        k = k + 1;
    }
    out
}

/// Whether a row group that is needed has no place on record for a column that is asked for.
pub open spec fn lacks_column(f: V4Footer, needed: Seq<bool>, hits: Seq<HitsSeq>) -> bool {
    exists|i: int|
        0 <= i < hits.len() && (#[trigger] hits[i]).rows.len() > 0 && group_lacks(f, needed, i)
}

/// Whether a row group has no place on record for a column that is asked for.
pub open spec fn group_lacks(f: V4Footer, needed: Seq<bool>, i: int) -> bool {
    i >= f.col_offsets@.len() || exists|ci: int|
        f.col_offsets@[i]@.len() <= ci < needed.len() && #[trigger] needed[ci]
}

fn test_group_lacks(f: &V4Footer, needed: &Vec<bool>, i: usize) -> (r: bool)
    ensures
        r == group_lacks(*f, needed@, i as int),
{
    if i >= f.col_offsets.len() {
        return true;
    }
    let mut ci: usize = f.col_offsets[i].len();
    while ci < needed.len()
        invariant
            i < f.col_offsets@.len(),
            f.col_offsets@[i as int]@.len() <= ci,
            forall|k: int|
                f.col_offsets@[i as int]@.len() <= k < ci && k < needed@.len()
                    ==> !#[trigger] needed@[k],
        decreases needed@.len() - ci,
    {
        if needed[ci] {
            assert(needed@[ci as int]);
            return true;
        }
        ci = ci + 1;
    }
    false
}

fn test_lacks_column(f: &V4Footer, needed: &Vec<bool>, hits: &Vec<Hits>) -> (r: bool)
    ensures
        r == lacks_column(*f, needed@, hits_view(hits@)),
{
    let ghost hv = hits_view(hits@);
    let mut i: usize = 0;
    while i < hits.len()
        invariant
            i <= hits@.len(),
            hv == hits_view(hits@),
            forall|k: int|
                0 <= k < i && (#[trigger] hv[k]).rows.len() > 0 ==> !group_lacks(*f, needed@, k),
        decreases hits@.len() - i,
    {
        assert(hv[i as int] == hits@[i as int]@);
        if hits[i].rows.len() > 0 && test_group_lacks(f, needed, i) {
            assert(hv[i as int].rows.len() > 0);
            return true;
        }
        i = i + 1;
    }
    false
}

/// A batch of rows, where there is one.
pub open spec fn rows_batch_view(r: Result<Option<RowsBatch>, ScanError>) -> Result<
    Option<RowsBatchSeq>,
    ScanError,
> {
    match r {
        Err(e) => Err(e),
        Ok(None) => Ok(None),
        Ok(Some(b)) => Ok(Some(b@)),
    }
}

impl<C: ColumnCodec> OnDemandStorage<C> {
    /// The rows with the given numbers, and of those the columns that are asked for. There is no
    /// answer without a catalogue, where a column has no place on record or where a dictionary of
    /// strings cannot be read.
    pub open spec fn rows_batch(self, indices: Seq<usize>, names: Option<Seq<Seq<char>>>) -> Result<
        Option<RowsBatchSeq>,
        ScanError,
    > {
        let n = indices.len() as int;
        if n == 0 {
            Ok(Some(RowsBatchSeq::NoFields))
        } else {
            match self.footer {
                None => Ok(None),
                Some(f) => match self.file {
                    None => Err(ScanError::NotOpen),
                    Some(file) => {
                        let needed = needed_of(f.schema, names);
                        let hits = all_hits(f.row_groups@, indices);
                        let st = if goes_quick(self.codec, f, file@, needed, hits, n) {
                            match quick_upto(
                                self.codec,
                                f,
                                file@,
                                needed,
                                hits,
                                n,
                                hits.len() as int,
                            ) {
                                Err(e) => Err(e),
                                Ok(st) => Ok(Some(st)),
                            }
                        } else {
                            rows_upto(self.codec, f, file@, needed, hits, n, hits.len() as int)
                        };
                        if lacks_column(f, needed, hits) {
                            Ok(None)
                        } else {
                            match st {
                                Err(e) => Err(e),
                                Ok(None) => Ok(None),
                                Ok(Some(st)) => Ok(
                                    Some(
                                        RowsBatchSeq::Rows {
                                            with_id: names_have(names, "_id"@),
                                            ids: st.ids,
                                            columns: rows_columns(
                                                f.schema,
                                                needed,
                                                st,
                                                n,
                                                f.schema.columns@.len() as int,
                                            ),
                                        },
                                    ),
                                ),
                            }
                        }
                    },
                },
            }
        }
    }

    /// Describes the batch of the rows with the given numbers.
    pub fn describe_rows_by_indices(&self, indices: &[usize], col_refs: Option<&[&str]>) -> (r:
        Result<Option<RowsBatch>, ScanError>)
        requires
            self.wf(),
        ensures
            rows_batch_view(r) == self.rows_batch(indices@, names_view(col_refs)),
    {
        let n: usize = indices.len();
        if n == 0 {
            return Ok(Some(RowsBatch::NoFields));
        }
        let f: &V4Footer = match self.get_or_load_footer() {
            None => {
                return Ok(None);
            },
            Some(f) => f,
        };
        let needed: Vec<bool> = get_needed(&f.schema, col_refs);
        let hits: Vec<Hits> = get_all_hits(f, indices);
        let file: &Vec<u8> = match &self.file {
            None => {
                return Err(ScanError::NotOpen);
            },
            Some(v) => v,
        };
        if test_lacks_column(f, &needed, &hits) {
            return Ok(None);
        }
        assert(hits_view(hits@).len() == hits@.len());
        let st: Picked = if do_go_quick(&self.codec, f, file.as_slice(), &needed, &hits, n) {
            match pick_quick(&self.codec, f, file.as_slice(), &needed, &hits, n) {
                Err(e) => {
                    return Err(e);
                },
                Ok(st) => st,
            }
        } else {
            match pick_rows(&self.codec, f, file.as_slice(), &needed, &hits, n) {
                Err(e) => {
                    return Err(e);
                },
                Ok(None) => {
                    return Ok(None);
                },
                Ok(Some(st)) => st,
            }
        };
        let with_id: bool = do_names_have(col_refs, "_id");
        let columns: Vec<(String, RowsColumn)> = make_rows_columns(&f.schema, &needed, &st, n);
        Ok(Some(RowsBatch::Rows { with_id, ids: st.ids, columns }))
    }
}

} // verus!
