//! Rows by number or by identifier, as columns of optional values.

use vstd::prelude::*;

use crate::batch::names_view;
use crate::bytes::{as_signed, bit, bitmap_len, signed, test_bit};
use crate::cells::{
    cell_view, cells_of, cells_view, get_cells, get_pick, pick, Cell, CellSeq, Pick, PickSeq, Slot,
    Source, SourceSeq,
};
use crate::codec::ColumnCodec;
use crate::extract::{
    all_hits, bufs_view, do_names_have, get_all_hits, get_needed, get_no_cells, hits_fit,
    hits_view, names_have, needed_of, no_cells, placed, put_cells, Hits, HitsSeq,
};
use crate::group::{
    get_stored, get_tail, get_window, id_at, id_section, rg_bitmap_len, rg_id_at,
    rg_id_section_len, stored_group, tail, window,
};
use crate::model::{
    is_float, is_int, ColumnType, OnDemandSchema, RowGroupMeta, ScanError, V4Footer,
    RG_COMPRESS_NONE,
};
use crate::outside::{eq_but_case, same_but_case};
use crate::row_batch::{
    make_typed_column, typed_column, BatchColumnSeq, MmapBatchColumn,
};
use crate::storage::OnDemandStorage;

verus! {

/// Rows as columns of optional values.
#[derive(Debug, PartialEq, Eq)]
pub struct MmapBatchColumns {
    pub row_count: usize,
    pub columns: Vec<(String, MmapBatchColumn)>,
}

/// Rows as columns of optional values, as sequences.
#[verifier::ext_equal]
pub struct BatchColumnsSeq {
    pub row_count: int,
    pub columns: Seq<(Seq<char>, BatchColumnSeq)>,
}

/// Named columns as sequences.
pub open spec fn typed_columns_view(v: Seq<(String, MmapBatchColumn)>) -> Seq<
    (Seq<char>, BatchColumnSeq),
> {
    Seq::new(v.len(), |i: int| (v[i].0@, v[i].1@))
}

impl View for MmapBatchColumns {
    type V = BatchColumnsSeq;

    open spec fn view(&self) -> BatchColumnsSeq {
        BatchColumnsSeq {
            row_count: self.row_count as int,
            columns: typed_columns_view(self.columns@),
        }
    }
}

/// What the values of a column are collected as; texts where they have no kind of their own.
pub open spec fn batch_slot(kind: ColumnType) -> Slot {
    if is_int(kind) {
        Slot::Int
    } else if is_float(kind) {
        Slot::Real
    } else if kind is Bool {
        Slot::Truth
    } else if kind is Binary {
        Slot::Bytes
    } else {
        Slot::Text
    }
}

fn get_batch_slot(kind: ColumnType) -> (r: Slot)
    ensures
        r == batch_slot(kind),
{
    if kind.is_int() {
        Slot::Int
    } else if kind.is_float() {
        Slot::Real
    } else if kind == ColumnType::Bool {
        Slot::Truth
    } else if kind == ColumnType::Binary {
        Slot::Bytes
    } else {
        Slot::Text
    }
}

/// The values of rows of one column at position `at` of a body. Where `strict`, a column that is cut
/// off or has to be decoded is given up; else it is decoded, and gives nothing where it is cut off.
#[verifier::opaque]
pub open spec fn batch_cells<C: ColumnCodec>(
    c: C,
    strict: bool,
    kind: ColumnType,
    version: u8,
    body: Seq<u8>,
    bm: int,
    at: int,
    rows: Seq<usize>,
) -> Result<Option<Seq<Option<CellSeq>>>, ScanError> {
    let none = if strict {
        None
    } else {
        Some(no_cells(rows.len() as int))
    };
    match window(body, at, bm) {
        None => Ok(none),
        Some(nulls) => {
            let col = tail(body, at + bm);
            if col.len() == 0 {
                Ok(none)
            } else {
                let from = match pick(c, kind, version, col) {
                    PickSeq::From(SourceSeq::RealList(v)) => if strict {
                        Ok(None)
                    } else {
                        Ok(Some(SourceSeq::RealList(v)))
                    },
                    PickSeq::From(src) => Ok(Some(src)),
                    PickSeq::BadTexts => Ok(
                        if strict {
                            None
                        } else {
                            Some(SourceSeq::Nothing)
                        },
                    ),
                    PickSeq::BadDict => Err(ScanError::Codec),
                    PickSeq::BadReals => if strict {
                        Ok(None)
                    } else {
                        Err(ScanError::Codec)
                    },
                    PickSeq::Rest => if strict {
                        Ok(None)
                    } else {
                        match c.decoded(true, col, kind) {
                            None => Err(ScanError::Codec),
                            Some((v, _)) => Ok(Some(SourceSeq::Whole { col: v, width: 0 })),
                        }
                    },
                };
                match from {
                    Err(e) => Err(e),
                    Ok(None) => Ok(None),
                    Ok(Some(src)) => match cells_of(src, batch_slot(kind), false, nulls, rows) {
                        Err(e) => Err(e),
                        Ok(v) => Ok(Some(v)),
                    },
                }
            }
        },
    }
}

fn get_batch_cells<C: ColumnCodec>(
    c: &C,
    strict: bool,
    kind: ColumnType,
    version: u8,
    body: &[u8],
    bm: u64,
    at: u32,
    rows: &Vec<usize>,
) -> (r: Result<Option<Vec<Option<Cell>>>, ScanError>)
    ensures
        ({
            let want = batch_cells(
                *c,
                strict,
                kind,
                version,
                body@,
                bm as int,
                at as int,
                rows@,
            );
            match r {
                Err(e) => want == Err::<Option<Seq<Option<CellSeq>>>, ScanError>(e),
                Ok(None) => want == Ok::<Option<Seq<Option<CellSeq>>>, ScanError>(None),
                Ok(Some(v)) => want == Ok::<Option<Seq<Option<CellSeq>>>, ScanError>(
                    Some(cells_view(v@)),
                ) && v@.len() == rows@.len(),
            }
        }),
{
    reveal(batch_cells);
    let nulls: &[u8] = match get_window(body, at as u64, bm) {
        None => {
            return if strict {
                Ok(None)
            } else {
                Ok(Some(get_no_cells(rows.len())))
            };
        },
        Some(w) => w,
    };
    let col: &[u8] = get_tail(body, (at as u64 + bm) as usize);
    if col.len() == 0 {
        return if strict {
            Ok(None)
        } else {
            Ok(Some(get_no_cells(rows.len())))
        };
    }
    let src: Source = match get_pick(c, kind, version, col) {
        Pick::From(src) => {
            if strict && matches!(src, Source::RealList(_)) {
                return Ok(None);
            }
            src
        },
        Pick::BadTexts => {
            if strict {
                return Ok(None);
            }
            Source::Nothing
        },
        Pick::BadDict => {
            return Err(ScanError::Codec);
        },
        Pick::BadReals => {
            return if strict {
                Ok(None)
            } else {
                Err(ScanError::Codec)
            };
        },
        Pick::Rest => {
            if strict {
                return Ok(None);
            }
            match c.read_column(true, col, kind) {
                None => {
                    return Err(ScanError::Codec);
                },
                Some((v, _)) => Source::Whole { col: v, width: 0 },
            }
        },
    };
    match get_cells(&src, get_batch_slot(kind), false, nulls, rows) {
        Err(e) => Err(e),
        Ok(v) => Ok(Some(v)),
    }
}

/// Rows of one row group that were found: their places in the answer, their numbers in the row group
/// and their identifiers.
#[verifier::ext_equal]
pub struct FoundRowsSeq {
    pub outs: Seq<usize>,
    pub rows: Seq<usize>,
    pub ids: Seq<i64>,
}

/// Rows of one row group that were found.
pub struct FoundRows {
    pub outs: Vec<usize>,
    pub rows: Vec<usize>,
    pub ids: Vec<i64>,
}

impl View for FoundRows {
    type V = FoundRowsSeq;

    open spec fn view(&self) -> FoundRowsSeq {
        FoundRowsSeq { outs: self.outs@, rows: self.rows@, ids: self.ids@ }
    }
}

impl FoundRows {
    /// Whether there are as many places as rows and identifiers, all of them below `n`.
    pub open spec fn fits(self, n: int) -> bool {
        &&& self.outs@.len() == self.rows@.len()
        &&& self.outs@.len() == self.ids@.len()
        &&& forall|j: int| 0 <= j < self.outs@.len() ==> #[trigger] self.outs@[j] < n
    }
}

/// What is collected: which rows were found, their identifiers, and the values of each column.
#[verifier::ext_equal]
pub struct BatchSt {
    pub found: Seq<bool>,
    pub ids: Seq<i64>,
    pub bufs: Seq<Seq<Option<CellSeq>>>,
}

/// What is collected.
pub struct BatchState {
    pub found: Vec<bool>,
    pub ids: Vec<i64>,
    pub bufs: Vec<Vec<Option<Cell>>>,
}

impl View for BatchState {
    type V = BatchSt;

    open spec fn view(&self) -> BatchSt {
        BatchSt { found: self.found@, ids: self.ids@, bufs: bufs_view(self.bufs@) }
    }
}

impl BatchState {
    /// Whether there are buffers for `m` columns and places for `n` rows.
    pub open spec fn fits(self, m: int, n: int) -> bool {
        &&& self.found@.len() == n
        &&& self.ids@.len() == n
        &&& self.bufs@.len() == m
        &&& forall|p: int| 0 <= p < m ==> (#[trigger] self.bufs@[p])@.len() == n
    }
}

/// Nothing collected yet.
pub open spec fn batch_start(m: int, n: int) -> BatchSt {
    BatchSt {
        found: Seq::new(n as nat, |i: int| false),
        ids: Seq::new(n as nat, |i: int| 0i64),
        bufs: Seq::new(m as nat, |p: int| no_cells(n)),
    }
}

pub(crate) fn get_batch_start(m: usize, n: usize) -> (r: BatchState)
    ensures
        r@ == batch_start(m as int, n as int),
        r.fits(m as int, n as int),
{
    let mut found: Vec<bool> = Vec::with_capacity(n);
    let mut ids: Vec<i64> = Vec::with_capacity(n);
    let mut i: usize = 0;
    while i < n
        invariant
            i <= n,
            found@ =~= Seq::new(i as nat, |i: int| false),
            ids@ =~= Seq::new(i as nat, |i: int| 0i64),
        decreases n - i,
    {
        found.push(false);
        ids.push(0);
        i = i + 1;
    }
    let mut bufs: Vec<Vec<Option<Cell>>> = Vec::with_capacity(m);
    let mut p: usize = 0;
    while p < m
        invariant
            p <= m,
            bufs@.len() == p,
            forall|k: int| 0 <= k < p ==> cells_view((#[trigger] bufs@[k])@) == no_cells(n as int),
            forall|k: int| 0 <= k < p ==> (#[trigger] bufs@[k])@.len() == n,
        decreases m - p,
    {
        bufs.push(get_no_cells(n));
        p = p + 1;
    }
    assert(bufs_view(bufs@) =~= batch_start(m as int, n as int).bufs);
    BatchState { found, ids, bufs }
}

/// A collection with the first `k` found rows marked.
pub open spec fn marked(st: BatchSt, rows: FoundRowsSeq, k: int) -> BatchSt
    decreases k,
{
    if k <= 0 {
        st
    } else {
        let before = marked(st, rows, k - 1);
        BatchSt {
            found: before.found.update(rows.outs[k - 1] as int, true),
            ids: before.ids.update(rows.outs[k - 1] as int, rows.ids[k - 1]),
            ..before
        }
    }
}

pub(crate) fn mark_rows(st: &mut BatchState, rows: &FoundRows, Ghost(m): Ghost<int>, n: usize)
    requires
        old(st).fits(m, n as int),
        rows.fits(n as int),
    ensures
        final(st).fits(m, n as int),
        final(st)@ == marked(old(st)@, rows@, rows.outs@.len() as int),
{
    let ghost was = st@;
    let mut k: usize = 0;
    while k < rows.outs.len()
        invariant
            k <= rows.outs@.len(),
            was == old(st)@,
            st.fits(m, n as int),
            rows.fits(n as int),
            st@ == marked(was, rows@, k as int),
        decreases rows.outs@.len() - k,
    {
        assert(rows.outs@[k as int] < n);
        let at: usize = rows.outs[k];
        let ghost before = st@;
        st.found.set(at, true);
        st.ids.set(at, rows.ids[k]);
        assert(st@ =~= BatchSt {
            found: before.found.update(at as int, true),
            ids: before.ids.update(at as int, rows.ids@[k as int]),
            ..before
        });
        k = k + 1;
    }
}

/// A collection with the values of found rows of one row group, for the first `p` columns.
pub open spec fn batch_group_columns<C: ColumnCodec>(
    c: C,
    f: V4Footer,
    strict: bool,
    version: u8,
    body: Seq<u8>,
    i: int,
    cols: Seq<usize>,
    rows: FoundRowsSeq,
    st: BatchSt,
    p: int,
) -> Result<Option<BatchSt>, ScanError>
    decreases p,
{
    if p <= 0 {
        Ok(Some(st))
    } else {
        match batch_group_columns(c, f, strict, version, body, i, cols, rows, st, p - 1) {
            Ok(Some(before)) => match f.rcix(i, cols[p - 1] as int) {
                None => Ok(Some(before)),
                Some(at) => match batch_cells(
                    c,
                    strict,
                    f.schema.kind(cols[p - 1] as int),
                    version,
                    body,
                    bitmap_len(f.row_groups@[i].row_count as int),
                    at,
                    rows.rows,
                ) {
                    Err(e) => Err(e),
                    Ok(None) => Ok(None),
                    Ok(Some(cells)) => Ok(
                        Some(
                            BatchSt {
                                bufs: before.bufs.update(
                                    p - 1,
                                    placed(before.bufs[p - 1], rows.outs, cells),
                                ),
                                ..before
                            },
                        ),
                    ),
                },
            },
            other => other,
        }
    }
}

proof fn batch_group_columns_over<C: ColumnCodec>(
    c: C,
    f: V4Footer,
    strict: bool,
    version: u8,
    body: Seq<u8>,
    i: int,
    cols: Seq<usize>,
    rows: FoundRowsSeq,
    st: BatchSt,
    j: int,
    p: int,
)
    requires
        0 <= j <= p,
        !(batch_group_columns(c, f, strict, version, body, i, cols, rows, st, j) matches Ok(
            Some(_),
        )),
    ensures
        batch_group_columns(c, f, strict, version, body, i, cols, rows, st, p)
            == batch_group_columns(c, f, strict, version, body, i, cols, rows, st, j),
    decreases p,
{
    if j < p {
        batch_group_columns_over(c, f, strict, version, body, i, cols, rows, st, j, p - 1);
    }
}

/// What a step of a collection comes to: done, or given up.
pub open spec fn batch_step_is(
    r: Result<bool, ScanError>,
    now: BatchSt,
    want: Result<Option<BatchSt>, ScanError>,
) -> bool {
    match r {
        Err(e) => want == Err::<Option<BatchSt>, ScanError>(e),
        Ok(false) => want == Ok::<Option<BatchSt>, ScanError>(None),
        Ok(true) => want == Ok::<Option<BatchSt>, ScanError>(Some(now)),
    }
}

pub(crate) fn add_batch_columns<C: ColumnCodec>(
    c: &C,
    f: &V4Footer,
    strict: bool,
    version: u8,
    body: &[u8],
    i: usize,
    cols: &Vec<usize>,
    rows: &FoundRows,
    n: usize,
    st: &mut BatchState,
) -> (r: Result<bool, ScanError>)
    requires
        i < f.row_groups@.len(),
        forall|p: int| 0 <= p < cols@.len() ==> #[trigger] cols@[p] < f.schema.columns@.len(),
        rows.fits(n as int),
        old(st).fits(cols@.len() as int, n as int),
    ensures
        final(st).fits(cols@.len() as int, n as int),
        batch_step_is(
            r,
            final(st)@,
            batch_group_columns(
                *c,
                *f,
                strict,
                version,
                body@,
                i as int,
                cols@,
                rows@,
                old(st)@,
                cols@.len() as int,
            ),
        ),
{
    let ghost was = st@;
    let ghost all = cols@.len() as int;
    let bm: u64 = rg_bitmap_len(f.row_groups[i].row_count);
    let mut p: usize = 0;
    while p < cols.len()
        invariant
            p <= cols@.len(),
            all == cols@.len(),
            i < f.row_groups@.len(),
            was == old(st)@,
            bm == bitmap_len(f.row_groups@[i as int].row_count as int),
            forall|p: int| 0 <= p < cols@.len() ==> #[trigger] cols@[p] < f.schema.columns@.len(),
            rows.fits(n as int),
            st.fits(cols@.len() as int, n as int),
            batch_group_columns(
                *c,
                *f,
                strict,
                version,
                body@,
                i as int,
                cols@,
                rows@,
                was,
                p as int,
            ) == Ok::<Option<BatchSt>, ScanError>(Some(st@)),
        decreases cols@.len() - p,
    {
        assert(cols@[p as int] < f.schema.columns@.len());
        let ci: usize = cols[p];
        if let Some(at) = f.column_offset(i, ci) {
            match get_batch_cells(
                c,
                strict,
                f.schema.columns[ci].1,
                version,
                body,
                bm,
                at,
                &rows.rows,
            ) {
                Err(e) => {
                    proof {
                        batch_group_columns_over(
                            *c,
                            *f,
                            strict,
                            version,
                            body@,
                            i as int,
                            cols@,
                            rows@,
                            was,
                            p + 1,
                            all,
                        );
                    }
                    return Err(e);
                },
                Ok(None) => {
                    proof {
                        batch_group_columns_over(
                            *c,
                            *f,
                            strict,
                            version,
                            body@,
                            i as int,
                            cols@,
                            rows@,
                            was,
                            p + 1,
                            all,
                        );
                    }
                    return Ok(false);
                },
                Ok(Some(cells)) => {
                    let ghost before = st@;
                    let ghost prior = st.bufs@;
                    let ghost add = cells_view(cells@);
                    assert(st.bufs@[p as int]@.len() == n);
                    let mut buf: Vec<Option<Cell>> = st.bufs.remove(p);
                    assert(before.bufs[p as int] == cells_view(buf@));
                    put_cells(&mut buf, &rows.outs, cells);
                    let ghost now = buf;
                    st.bufs.insert(p, buf);
                    proof {
                        assert(st.bufs@ =~= prior.update(p as int, now));
                        assert(bufs_view(st.bufs@) =~= before.bufs.update(
                            p as int,
                            placed(before.bufs[p as int], rows@.outs, add),
                        ));
                    }
                },
            }
        }
        p = p + 1;
    }
    Ok(true)
}

/// Those of the first `k` rows that are live and have an identifier.
pub open spec fn live_hits(
    meta: RowGroupMeta,
    body: Seq<u8>,
    ids: u8,
    deleted: Seq<u8>,
    hits: HitsSeq,
    k: int,
) -> FoundRowsSeq
    decreases k,
{
    if k <= 0 {
        FoundRowsSeq { outs: Seq::empty(), rows: Seq::empty(), ids: Seq::empty() }
    } else {
        let before = live_hits(meta, body, ids, deleted, hits, k - 1);
        let row = hits.rows[k - 1];
        if meta.deletion_count > 0 && bit(deleted, row as int) {
            before
        } else {
            match id_at(body, meta.min_id, ids, row as int) {
                None => before,
                Some(id) => FoundRowsSeq {
                    outs: before.outs.push(hits.outs[k - 1]),
                    rows: before.rows.push(row),
                    ids: before.ids.push(signed(id) as i64),
                },
            }
        }
    }
}

fn find_live_hits(meta: &RowGroupMeta, body: &[u8], ids: u8, deleted: &[u8], hits: &Hits, n: usize) -> (r:
    FoundRows)
    requires
        hits.outs@.len() == hits.rows@.len(),
        forall|j: int| 0 <= j < hits.outs@.len() ==> #[trigger] hits.outs@[j] < n,
        forall|j: int| 0 <= j < hits.rows@.len() ==> #[trigger] hits.rows@[j] <= u32::MAX,
    ensures
        r@ == live_hits(*meta, body@, ids, deleted@, hits@, hits.rows@.len() as int),
        r.fits(n as int),
{
    let mut out: FoundRows = FoundRows { outs: Vec::new(), rows: Vec::new(), ids: Vec::new() };
    let mut k: usize = 0;
    while k < hits.rows.len()
        invariant
            k <= hits.rows@.len(),
            hits.outs@.len() == hits.rows@.len(),
            forall|j: int| 0 <= j < hits.outs@.len() ==> #[trigger] hits.outs@[j] < n,
            forall|j: int| 0 <= j < hits.rows@.len() ==> #[trigger] hits.rows@[j] <= u32::MAX,
            out@ =~= live_hits(*meta, body@, ids, deleted@, hits@, k as int),
            out.fits(n as int),
        decreases hits.rows@.len() - k,
    {
        assert(hits.rows@[k as int] <= u32::MAX);
        assert(hits.outs@[k as int] < n);
        let row: usize = hits.rows[k];
        if !(meta.deletion_count > 0 && test_bit(deleted, row)) {
            if let Some(id) = rg_id_at(body, meta.min_id, ids, row as u32) {
                out.outs.push(hits.outs[k]);
                out.rows.push(row);
                out.ids.push(as_signed(id));
            }
        }
        k = k + 1;
    }
    out
}

/// A collection after row group `i`, for rows that are asked for by number. `None` where the row
/// group is compressed or untagged or where a column cannot be read where it stands.
pub open spec fn numbered_group<C: ColumnCodec>(
    c: C,
    f: V4Footer,
    file: Seq<u8>,
    cols: Seq<usize>,
    hits: HitsSeq,
    i: int,
    st: BatchSt,
) -> Result<Option<BatchSt>, ScanError> {
    let meta = f.row_groups@[i];
    let rows = meta.row_count as int;
    if hits.rows.len() == 0 {
        Ok(Some(st))
    } else {
        match stored_group(meta, file) {
            Err(ScanError::PastEof) => Err(ScanError::PastEof),
            Err(_) => Ok(None),
            Ok(s) => if s[28] != RG_COMPRESS_NONE || s[29] < 1 {
                Ok(None)
            } else {
                let body = tail(s, 32);
                match window(body, id_section(rows, s[30]), bitmap_len(rows)) {
                    None => Ok(None),
                    Some(deleted) => {
                        let found = live_hits(
                            meta,
                            body,
                            s[30],
                            deleted,
                            hits,
                            hits.rows.len() as int,
                        );
                        if found.rows.len() == 0 {
                            Ok(Some(st))
                        } else {
                            batch_group_columns(
                                c,
                                f,
                                true,
                                s[29],
                                body,
                                i,
                                cols,
                                found,
                                marked(st, found, found.outs.len() as int),
                                cols.len() as int,
                            )
                        }
                    },
                }
            },
        }
    }
}

fn add_numbered_group<C: ColumnCodec>(
    c: &C,
    f: &V4Footer,
    file: &[u8],
    cols: &Vec<usize>,
    hits: &Hits,
    i: usize,
    n: usize,
    st: &mut BatchState,
) -> (r: Result<bool, ScanError>)
    requires
        i < f.row_groups@.len(),
        forall|p: int| 0 <= p < cols@.len() ==> #[trigger] cols@[p] < f.schema.columns@.len(),
        old(st).fits(cols@.len() as int, n as int),
        hits.outs@.len() == hits.rows@.len(),
        forall|j: int| 0 <= j < hits.outs@.len() ==> #[trigger] hits.outs@[j] < n,
        forall|j: int| 0 <= j < hits.rows@.len() ==> #[trigger] hits.rows@[j] <= u32::MAX,
    ensures
        final(st).fits(cols@.len() as int, n as int),
        batch_step_is(
            r,
            final(st)@,
            numbered_group(*c, *f, file@, cols@, hits@, i as int, old(st)@),
        ),
{
    let meta: RowGroupMeta = f.row_groups[i];
    if hits.rows.len() == 0 {
        return Ok(true);
    }
    let s: &[u8] = match get_stored(&meta, file) {
        Err(ScanError::PastEof) => {
            return Err(ScanError::PastEof);
        },
        Err(_) => {
            return Ok(false);
        },
        Ok(s) => s,
    };
    if s[28] != RG_COMPRESS_NONE || s[29] < 1 {
        return Ok(false);
    }
    let body: &[u8] = get_tail(s, 32);
    let bm: u64 = rg_bitmap_len(meta.row_count);
    let deleted: &[u8] = match get_window(body, rg_id_section_len(meta.row_count, s[30]), bm) {
        None => {
            return Ok(false);
        },
        Some(w) => w,
    };
    let found: FoundRows = find_live_hits(&meta, body, s[30], deleted, hits, n);
    if found.rows.len() == 0 {
        return Ok(true);
    }
    mark_rows(st, &found, Ghost(cols@.len() as int), n);
    add_batch_columns(c, f, true, s[29], body, i, cols, &found, n, st)
}

/// What is collected from the first `k` row groups, for rows that are asked for by number.
pub open spec fn numbered_upto<C: ColumnCodec>(
    c: C,
    f: V4Footer,
    file: Seq<u8>,
    cols: Seq<usize>,
    hits: Seq<HitsSeq>,
    n: int,
    k: int,
) -> Result<Option<BatchSt>, ScanError>
    decreases k,
{
    if k <= 0 {
        Ok(Some(batch_start(cols.len() as int, n)))
    } else {
        match numbered_upto(c, f, file, cols, hits, n, k - 1) {
            Ok(Some(st)) => numbered_group(c, f, file, cols, hits[k - 1], k - 1, st),
            other => other,
        }
    }
}

proof fn numbered_upto_over<C: ColumnCodec>(
    c: C,
    f: V4Footer,
    file: Seq<u8>,
    cols: Seq<usize>,
    hits: Seq<HitsSeq>,
    n: int,
    j: int,
    k: int,
)
    requires
        0 <= j <= k,
        !(numbered_upto(c, f, file, cols, hits, n, j) matches Ok(Some(_))),
    ensures
        numbered_upto(c, f, file, cols, hits, n, k) == numbered_upto(c, f, file, cols, hits, n, j),
    decreases k,
{
    if j < k {
        numbered_upto_over(c, f, file, cols, hits, n, j, k - 1);
    }
}

/// Which columns are collected: those that are asked for, among the first `k`.
pub open spec fn needed_columns(needed: Seq<bool>, k: int) -> Seq<usize>
    decreases k,
{
    if k <= 0 {
        Seq::empty()
    } else if needed[k - 1] {
        needed_columns(needed, k - 1).push((k - 1) as usize)
    } else {
        needed_columns(needed, k - 1)
    }
}

fn get_needed_columns(needed: &Vec<bool>) -> (r: Vec<usize>)
    ensures
        r@ == needed_columns(needed@, needed@.len() as int),
        forall|p: int| 0 <= p < r@.len() ==> #[trigger] r@[p] < needed@.len(),
{
    let mut out: Vec<usize> = Vec::new();
    let mut k: usize = 0;
    assert(out@ =~= Seq::empty());
    while k < needed.len()
        invariant
            k <= needed@.len(),
            out@ == needed_columns(needed@, k as int),
            forall|p: int| 0 <= p < out@.len() ==> #[trigger] out@[p] < needed@.len(),
        decreases needed@.len() - k,
    {
        if needed[k] {
            out.push(k);
        }
        k = k + 1;
    }
    out
}

/// Those of the first `k` values whose rows were found.
pub open spec fn kept<A>(found: Seq<bool>, values: Seq<A>, k: int) -> Seq<A>
    decreases k,
{
    if k <= 0 {
        Seq::empty()
    } else if found[k - 1] {
        kept(found, values, k - 1).push(values[k - 1])
    } else {
        kept(found, values, k - 1)
    }
}

fn copy_cell(c: &Cell) -> (r: Cell)
    ensures
        r@ == c@,
{
    match c {
        Cell::Int(v) => Cell::Int(*v),
        Cell::Real(v) => Cell::Real(*v),
        Cell::Text(t) => Cell::Text(t.as_str().to_owned()),
        Cell::Truth(b) => Cell::Truth(*b),
        Cell::Bytes(b) => Cell::Bytes(vstd::slice::slice_to_vec(b.as_slice())),
        Cell::List { bytes, dim, form } => Cell::List {
            bytes: vstd::slice::slice_to_vec(bytes.as_slice()),
            dim: *dim,
            form: *form,
        },
    }
}

fn keep_cells(found: &Vec<bool>, cells: &Vec<Option<Cell>>) -> (r: Vec<Option<Cell>>)
    requires
        found@.len() == cells@.len(),
    ensures
        cells_view(r@) == kept(found@, cells_view(cells@), found@.len() as int),
{
    let ghost all = cells_view(cells@);
    let mut out: Vec<Option<Cell>> = Vec::new();
    let mut k: usize = 0;
    assert(cells_view(out@) =~= Seq::empty());
    while k < found.len()
        invariant
            k <= found@.len(),
            found@.len() == cells@.len(),
            all == cells_view(cells@),
            cells_view(out@) == kept(found@, all, k as int),
        decreases found@.len() - k,
    {
        if found[k] {
            let ghost before = cells_view(out@);
            assert(all[k as int] == cell_view(cells@[k as int]));
            match &cells[k] {
                None => {
                    out.push(None);
                },
                Some(c) => {
                    out.push(Some(copy_cell(c)));
                },
            }
            assert(cells_view(out@) =~= before.push(all[k as int]));
        }
        k = k + 1;
    }
    out
}

/// Identifiers, all of them there.
pub open spec fn some_ids(ids: Seq<i64>) -> Seq<Option<i64>> {
    Seq::new(ids.len(), |i: int| Some(ids[i]))
}

fn keep_ids(found: &Vec<bool>, ids: &Vec<i64>) -> (r: Vec<Option<i64>>)
    requires
        found@.len() == ids@.len(),
    ensures
        r@ == some_ids(kept(found@, ids@, found@.len() as int)),
{
    let mut out: Vec<Option<i64>> = Vec::new();
    let mut k: usize = 0;
    while k < found.len()
        invariant
            k <= found@.len(),
            found@.len() == ids@.len(),
            out@ =~= some_ids(kept(found@, ids@, k as int)),
        decreases found@.len() - k,
    {
        if found[k] {
            out.push(Some(ids[k]));
        }
        k = k + 1;
    }
    out
}

/// The columns of the rows that were found, for the first `p` columns.
pub open spec fn kept_columns(schema: OnDemandSchema, cols: Seq<usize>, st: BatchSt, p: int) -> Seq<
    (Seq<char>, BatchColumnSeq),
>
    decreases p,
{
    if p <= 0 {
        Seq::empty()
    } else {
        let ci = cols[p - 1] as int;
        kept_columns(schema, cols, st, p - 1).push(
            (
                schema.columns@[ci].0@,
                typed_column(
                    batch_slot(schema.kind(ci)),
                    kept(st.found, st.bufs[p - 1], st.found.len() as int),
                ),
            ),
        )
    }
}

/// The rows that were found, behind their identifiers where those are shown. Without such rows there
/// are no columns.
pub open spec fn batch_answer(schema: OnDemandSchema, cols: Seq<usize>, with_id: bool, st: BatchSt) -> BatchColumnsSeq {
    let ids = kept(st.found, st.ids, st.found.len() as int);
    let head = if with_id {
        seq![("_id"@, BatchColumnSeq::I64(some_ids(ids)))]
    } else {
        Seq::empty()
    };
    BatchColumnsSeq {
        row_count: ids.len() as int,
        columns: if ids.len() == 0 {
            Seq::empty()
        } else {
            head + kept_columns(schema, cols, st, cols.len() as int)
        },
    }
}

pub(crate) fn make_batch_answer(schema: &OnDemandSchema, cols: &Vec<usize>, with_id: bool, st: &BatchState, n: usize) -> (r:
    MmapBatchColumns)
    requires
        forall|p: int| 0 <= p < cols@.len() ==> #[trigger] cols@[p] < schema.columns@.len(),
        st.fits(cols@.len() as int, n as int),
    ensures
        r@ == batch_answer(*schema, cols@, with_id, st@),
{
    let ids: Vec<Option<i64>> = keep_ids(&st.found, &st.ids);
    let count: usize = ids.len();
    let ghost kept_ids = kept(st@.found, st@.ids, st@.found.len() as int);
    assert(count == kept_ids.len());
    let mut columns: Vec<(String, MmapBatchColumn)> = Vec::new();
    if count == 0 {
        assert(typed_columns_view(columns@) =~= Seq::empty());
        return MmapBatchColumns { row_count: 0, columns };
    }
    let ghost head: Seq<(Seq<char>, BatchColumnSeq)> = if with_id {
        seq![("_id"@, BatchColumnSeq::I64(some_ids(kept_ids)))]
    } else {
        Seq::empty()
    };
    if with_id {
        columns.push(("_id".to_owned(), MmapBatchColumn::I64(ids)));
    }
    assert(typed_columns_view(columns@) =~= head);
    assert(head + kept_columns(*schema, cols@, st@, 0) =~= head);
    let mut p: usize = 0;
    while p < cols.len()
        invariant
            p <= cols@.len(),
            forall|p: int| 0 <= p < cols@.len() ==> #[trigger] cols@[p] < schema.columns@.len(),
            st.fits(cols@.len() as int, n as int),
            typed_columns_view(columns@) == head + kept_columns(*schema, cols@, st@, p as int),
        decreases cols@.len() - p,
    {
        assert(cols@[p as int] < schema.columns@.len());
        assert(st.bufs@[p as int]@.len() == n);
        assert(st@.bufs[p as int] == cells_view(st.bufs@[p as int]@));
        let ci: usize = cols[p];
        let ghost before = typed_columns_view(columns@);
        let own: Vec<Option<Cell>> = keep_cells(&st.found, &st.bufs[p]);
        let col: MmapBatchColumn = make_typed_column(get_batch_slot(schema.columns[ci].1), &own);
        let ghost now = (schema.columns@[ci as int].0@, col@);
        columns.push((schema.columns[ci].0.as_str().to_owned(), col));
        proof {
            assert(typed_columns_view(columns@) =~= before.push(now));
            assert(before.push(now) =~= head + kept_columns(*schema, cols@, st@, p as int).push(
                now,
            ));
        }
        p = p + 1;
    }
    MmapBatchColumns { row_count: count, columns }
}

/// Rows as columns, where there is an answer.
pub open spec fn batch_columns_view(r: Result<Option<MmapBatchColumns>, ScanError>) -> Result<
    Option<BatchColumnsSeq>,
    ScanError,
> {
    match r {
        Err(e) => Err(e),
        Ok(None) => Ok(None),
        Ok(Some(b)) => Ok(Some(b@)),
    }
}

/// An answer without rows.
pub open spec fn no_rows() -> BatchColumnsSeq {
    BatchColumnsSeq { row_count: 0, columns: Seq::empty() }
}

pub(crate) fn make_no_rows() -> (r: MmapBatchColumns)
    ensures
        r@ == no_rows(),
{
    let columns: Vec<(String, MmapBatchColumn)> = Vec::new();
    assert(typed_columns_view(columns@) =~= Seq::empty());
    MmapBatchColumns { row_count: 0, columns }
}

/// Whether a name that is asked for is neither that of the identifier nor in the schema.
pub open spec fn unknown_name(schema: OnDemandSchema, names: Option<Seq<Seq<char>>>) -> bool {
    match names {
        None => false,
        Some(v) => some_unknown(schema, v),
    }
}

/// Whether some name is neither that of the identifier nor in the schema.
pub open spec fn some_unknown(schema: OnDemandSchema, names: Seq<Seq<char>>) -> bool {
    exists|k: int| 0 <= k < names.len() && #[trigger] is_unknown(schema, names[k])
}

/// Whether a name is neither that of the identifier nor in the schema.
pub open spec fn is_unknown(schema: OnDemandSchema, name: Seq<char>) -> bool {
    !same_but_case(name, "_id"@) && schema.index_of(name) is None
}

fn test_unknown_name(schema: &OnDemandSchema, names: Option<&[&str]>) -> (r: bool)
    ensures
        r == unknown_name(*schema, names_view(names)),
{
    match names {
        None => false,
        Some(v) => {
            let ghost texts: Seq<Seq<char>> = Seq::new(v@.len(), |i: int| v@[i]@);
            let mut k: usize = 0;
            while k < v.len()
                invariant
                    k <= v.len(),
                    texts == Seq::new(v@.len(), |i: int| v@[i]@),
                    names_view(names) == Some(texts),
                    forall|j: int| 0 <= j < k ==> !#[trigger] is_unknown(*schema, texts[j]),
                decreases v.len() - k,
            {
                assert(texts[k as int] == v@[k as int]@);
                if !eq_but_case(v[k], "_id") && schema.get_index(v[k]).is_none() {
                    assert(is_unknown(*schema, texts[k as int]));
                    assert(some_unknown(*schema, texts));
                    return true;
                }
                k = k + 1;
            }
            false
        },
    }
}

/// Whether a row group that is needed has no columns on record.
pub open spec fn lacks_record(f: V4Footer, hits: Seq<HitsSeq>) -> bool {
    exists|i: int|
        0 <= i < hits.len() && (#[trigger] hits[i]).rows.len() > 0 && i >= f.col_offsets@.len()
}

fn test_lacks_record(f: &V4Footer, hits: &Vec<Hits>) -> (r: bool)
    ensures
        r == lacks_record(*f, hits_view(hits@)),
{
    let ghost hv = hits_view(hits@);
    let mut i: usize = 0;
    while i < hits.len()
        invariant
            i <= hits@.len(),
            hv == hits_view(hits@),
            forall|k: int|
                0 <= k < i && (#[trigger] hv[k]).rows.len() > 0 ==> k < f.col_offsets@.len(),
        decreases hits@.len() - i,
    {
        assert(hv[i as int] == hits@[i as int]@);
        if hits[i].rows.len() > 0 && i >= f.col_offsets.len() {
            assert(hv[i as int].rows.len() > 0);
            return true;
        }
        i = i + 1;
    }
    false
}

impl<C: ColumnCodec> OnDemandStorage<C> {
    /// The live ones of the rows with the given numbers, as columns. There is no answer without a
    /// catalogue or a file, for a name that is not known, or where a column cannot be read where it
    /// stands.
    pub open spec fn numbered_rows(self, indices: Seq<usize>, names: Option<Seq<Seq<char>>>) -> Result<
        Option<BatchColumnsSeq>,
        ScanError,
    > {
        let n = indices.len() as int;
        if n == 0 {
            Ok(Some(no_rows()))
        } else {
            match self.footer {
                None => Ok(None),
                Some(f) => {
                    let cols = needed_columns(
                        needed_of(f.schema, names),
                        f.schema.columns@.len() as int,
                    );
                    let hits = all_hits(f.row_groups@, indices);
                    if unknown_name(f.schema, names) || lacks_record(f, hits) {
                        Ok(None)
                    } else {
                        match self.file {
                            None => Ok(None),
                            Some(file) => match numbered_upto(
                                self.codec,
                                f,
                                file@,
                                cols,
                                hits,
                                n,
                                hits.len() as int,
                            ) {
                                Err(e) => Err(e),
                                Ok(None) => Ok(None),
                                Ok(Some(st)) => Ok(
                                    Some(
                                        batch_answer(
                                            f.schema,
                                            cols,
                                            names_have(names, "_id"@),
                                            st,
                                        ),
                                    ),
                                ),
                            },
                        }
                    }
                },
            }
        }
    }

    /// Reads the live ones of the rows with the given numbers as columns.
    pub fn extract_rows_by_indices_mmap_columns(
        &self,
        indices: &[usize],
        col_refs: Option<&[&str]>,
    ) -> (r: Result<Option<MmapBatchColumns>, ScanError>)
        requires
            self.wf(),
        ensures
            batch_columns_view(r) == self.numbered_rows(indices@, names_view(col_refs)),
    {
        let n: usize = indices.len();
        if n == 0 {
            return Ok(Some(make_no_rows()));
        }
        let f: &V4Footer = match self.get_or_load_footer() {
            None => {
                return Ok(None);
            },
            Some(f) => f,
        };
        let needed: Vec<bool> = get_needed(&f.schema, col_refs);
        let cols: Vec<usize> = get_needed_columns(&needed);
        let hits: Vec<Hits> = get_all_hits(f, indices);
        if test_unknown_name(&f.schema, col_refs) || test_lacks_record(f, &hits) {
            return Ok(None);
        }
        let file: &Vec<u8> = match &self.file {
            None => {
                return Ok(None);
            },
            Some(v) => v,
        };
        let ghost hv = hits_view(hits@);
        let ghost all = hv.len() as int;
        let ghost want = self.numbered_rows(indices@, names_view(col_refs));
        let mut st: BatchState = get_batch_start(cols.len(), n);
        let mut i: usize = 0;
        while i < hits.len()
            invariant
                i <= hits@.len(),
                all == hits@.len(),
                hv == hits_view(hits@),
                hits_fit(f.row_groups@, hv, n as int),
                forall|p: int|
                    0 <= p < cols@.len() ==> #[trigger] cols@[p] < f.schema.columns@.len(),
                st.fits(cols@.len() as int, n as int),
                numbered_upto(
                    self.codec,
                    *f,
                    file@,
                    cols@,
                    hv,
                    n as int,
                    i as int,
                ) == Ok::<Option<BatchSt>, ScanError>(Some(st@)),
                want == self.numbered_rows(indices@, names_view(col_refs)),
                want == (match numbered_upto(self.codec, *f, file@, cols@, hv, n as int, all) {
                    Err(e) => Err(e),
                    Ok(None) => Ok(None),
                    Ok(Some(st)) => Ok(
                        Some(
                            batch_answer(
                                f.schema,
                                cols@,
                                names_have(names_view(col_refs), "_id"@),
                                st,
                            ),
                        ),
                    ),
                }),
            decreases hits@.len() - i,
        {
            let h: &Hits = &hits[i];
            assert(hv[i as int] == h@);
            proof {
                assert forall|j: int| 0 <= j < h.outs@.len() implies #[trigger] h.outs@[j] < n by {
                    assert(hv[i as int].outs[j] < n);
                }
                assert forall|j: int| 0 <= j < h.rows@.len() implies #[trigger] h.rows@[j]
                    <= u32::MAX by {
                    assert(hv[i as int].rows[j] < f.row_groups@[i as int].row_count);
                }
            }
            match add_numbered_group(&self.codec, f, file.as_slice(), &cols, h, i, n, &mut st) {
                Err(e) => {
                    proof {
                        numbered_upto_over(
                            self.codec,
                            *f,
                            file@,
                            cols@,
                            hv,
                            n as int,
                            i + 1,
                            all,
                        );
                    }
                    return Err(e);
                },
                Ok(false) => {
                    proof {
                        numbered_upto_over(
                            self.codec,
                            *f,
                            file@,
                            cols@,
                            hv,
                            n as int,
                            i + 1,
                            all,
                        );
                    }
                    return Ok(None);
                },
                Ok(true) => {},
            }
            i = i + 1;
        }
        let with_id: bool = do_names_have(col_refs, "_id");
        Ok(Some(make_batch_answer(&f.schema, &cols, with_id, &st, n)))
    }
}

} // verus!
