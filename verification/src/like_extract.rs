//! The rows that match a LIKE pattern, with all their columns.

use vstd::prelude::*;
use vstd::slice::slice_subrange;
use vstd::utf8::encode_utf8;

use crate::arrays::text_there;
use crate::bytes::{as_signed, bit, bitmap_len, signed, test_bit};
use crate::cells::{
    cell_at, cell_result, cell_view, cells_view, get_cell_at, source_ok, Cell, CellSeq, Slot,
    Source, SourceSeq,
};
use crate::codec::ColumnCodec;
use crate::column::{ColumnData, ColumnSeq};
use crate::column_ops::{gaps, spelled};
use crate::dict_text::{dict_text, read_dict_text, DictText, DictTextSeq};
use crate::extract::{bufs_view, get_no_cells, no_cells};
use crate::group::{
    get_stored, get_tail, get_window, id_at, id_section, rg_bitmap_len, rg_id_at,
    rg_id_section_len, stored_group, tail, window,
};
use crate::like::{classify_like_pattern, is_plain, plain, shape_of, LikeKind};
use crate::like_scan::{LikeQuery, LikeQuerySeq};
use crate::model::{
    is_float, is_int, is_text, ColumnType, OnDemandSchema, RowGroupMeta, ScanError, V4Footer,
    COL_ENCODING_FLOAT_DICTIONARY, COL_ENCODING_PLAIN, RG_IDS_IMPLICIT_CONTIGUOUS, RG_IDS_PLAIN,
};
use crate::numeric::min2;
use crate::outside::text_from_bytes;
use crate::row_batch::{make_typed_column, typed_column, BatchColumnSeq, MmapBatchColumn};
use crate::retrieve::typed_columns_view;
use crate::storage::OnDemandStorage;
use crate::text::{plain_text, read_plain_text, PlainText, TextSeq};
use crate::text_scan::{
    all_quick, are_all_quick, get_quick_column, quick_column, QuickColumn, QuickSeq,
};

verus! {

/// Where the values of a column of matching rows come from.
pub enum LikeSource<'a> {
    /// Plain numbers, or doubles of a dictionary.
    Numbers(Source<'a>),
    /// Plain strings.
    Texts(PlainText<'a>),
    /// Strings of a plain dictionary.
    Dict(DictText<'a>),
    /// One bit for each truth value, behind a count.
    Truths(&'a [u8]),
    /// Decoded strings.
    Strings { offsets: Vec<u64>, data: Vec<u8> },
    /// Nowhere.
    Nothing,
}

/// Where the values of a column of matching rows come from, as sequences.
pub enum LikeSourceSeq {
    Numbers(SourceSeq),
    Texts(TextSeq),
    Dict(DictTextSeq),
    Truths(Seq<u8>),
    Strings { offsets: Seq<u64>, data: Seq<u8> },
    Nothing,
}

impl<'a> View for LikeSource<'a> {
    type V = LikeSourceSeq;

    open spec fn view(&self) -> LikeSourceSeq {
        match *self {
            LikeSource::Numbers(s) => LikeSourceSeq::Numbers(s@),
            LikeSource::Texts(t) => LikeSourceSeq::Texts(t@),
            LikeSource::Dict(d) => LikeSourceSeq::Dict(d@),
            LikeSource::Truths(p) => LikeSourceSeq::Truths(p@),
            LikeSource::Strings { offsets, data } => LikeSourceSeq::Strings {
                offsets: offsets@,
                data: data@,
            },
            LikeSource::Nothing => LikeSourceSeq::Nothing,
        }
    }
}

impl<'a> LikeSource<'a> {
    /// Whether the parts fit each other.
    pub open spec fn wf(self) -> bool {
        match self {
            LikeSource::Numbers(s) => source_ok(s@),
            LikeSource::Texts(t) => t.wf(),
            LikeSource::Dict(d) => d.wf(),
            _ => true,
        }
    }
}

/// A text behind bytes, nothing where they are none.
pub open spec fn strict_cell(b: Seq<u8>) -> Option<CellSeq> {
    match text_there(Some(b)) {
        None => None,
        Some(t) => Some(CellSeq::Text(t)),
    }
}

fn get_strict_cell(b: &[u8]) -> (r: Option<Cell>)
    ensures
        cell_view(r) == strict_cell(b@),
{
    match text_from_bytes(b) {
        None => None,
        Some(t) => Some(Cell::Text(t.to_owned())),
    }
}

/// Where value `k` of a dictionary ends: where the next one starts, or with the data as long as it
/// is declared to be.
pub open spec fn declared_end(d: DictTextSeq, k: int) -> int {
    if k + 1 < d.size {
        d.start(k + 1)
    } else {
        d.declared
    }
}

/// Value `i` of a source.
pub open spec fn like_cell(src: LikeSourceSeq, i: int) -> Result<Option<CellSeq>, ScanError> {
    match src {
        LikeSourceSeq::Numbers(s) => cell_at(s, Slot::Other, true, i),
        LikeSourceSeq::Texts(t) => if i >= t.count || t.end(i) > t.raw().len() {
            Ok(None)
        } else if t.start(i) > t.end(i) {
            Err(ScanError::Corrupt)
        } else {
            Ok(strict_cell(t.raw().subrange(t.start(i), t.end(i))))
        },
        LikeSourceSeq::Dict(d) => if i >= d.rows || d.index(i) == 0 || d.index(i) > d.size {
            Ok(None)
        } else {
            let k = d.index(i) - 1;
            if d.start(k) <= declared_end(d, k) <= d.raw.len() {
                Ok(strict_cell(d.raw.subrange(d.start(k), declared_end(d, k))))
            } else {
                Ok(None)
            }
        },
        LikeSourceSeq::Truths(p) => Ok(
            if 8 + i / 8 < p.len() {
                Some(CellSeq::Truth(bit(tail(p, 8), i)))
            } else {
                None
            },
        ),
        LikeSourceSeq::Strings { offsets, data } => if i >= gaps(offsets) || offsets[i + 1]
            > data.len() {
            Ok(None)
        } else if offsets[i] > offsets[i + 1] {
            Err(ScanError::Corrupt)
        } else {
            Ok(strict_cell(data.subrange(offsets[i] as int, offsets[i + 1] as int)))
        },
        LikeSourceSeq::Nothing => Ok(None),
    }
}

fn get_like_cell(src: &LikeSource, i: usize) -> (r: Result<Option<Cell>, ScanError>)
    requires
        src.wf(),
    ensures
        cell_result(r) == like_cell(src@, i as int),
{
    match src {
        LikeSource::Numbers(s) => get_cell_at(s, Slot::Other, true, i),
        LikeSource::Texts(t) => {
            if i >= t.count {
                return Ok(None);
            }
            let raw: &[u8] = t.raw();
            let s: usize = t.start(i);
            let e: usize = t.end(i);
            if e > raw.len() {
                return Ok(None);
            }
            if s > e {
                return Err(ScanError::Corrupt);
            }
            Ok(get_strict_cell(slice_subrange(raw, s, e)))
        },
        LikeSource::Dict(d) => {
            if i >= d.rows {
                return Ok(None);
            }
            let k1: u32 = d.index(i);
            if k1 == 0 || k1 as u64 > d.size as u64 {
                return Ok(None);
            }
            let k: usize = (k1 - 1) as usize;
            let s: u64 = d.start(k) as u64;
            let e: u64 = if k < d.size - 1 {
                d.start(k + 1) as u64
            } else {
                d.declared
            };
            if s <= e && e <= d.raw.len() as u64 {
                Ok(get_strict_cell(slice_subrange(d.raw, s as usize, e as usize)))
            } else {
                Ok(None)
            }
        },
        LikeSource::Truths(p) => {
            if p.len() >= 8 && i / 8 < p.len() - 8 {
                Ok(Some(Cell::Truth(test_bit(get_tail(p, 8), i))))
            } else {
                Ok(None)
            }
        },
        LikeSource::Strings { offsets, data } => {
            if offsets.len() == 0 || i >= offsets.len() - 1 {
                return Ok(None);
            }
            let s: u64 = offsets[i];
            let e: u64 = offsets[i + 1];
            if e > data.len() as u64 {
                return Ok(None);
            }
            if s > e {
                return Err(ScanError::Corrupt);
            }
            Ok(get_strict_cell(slice_subrange(data.as_slice(), s as usize, e as usize)))
        },
        LikeSource::Nothing => Ok(None),
    }
}

/// The values of some rows, nothing for those with a null mark.
pub open spec fn like_cells(src: LikeSourceSeq, nulls: Seq<u8>, rows: Seq<usize>) -> Result<
    Seq<Option<CellSeq>>,
    ScanError,
>
    decreases rows.len(),
{
    if rows.len() == 0 {
        Ok(Seq::empty())
    } else {
        match like_cells(src, nulls, rows.drop_last()) {
            Err(e) => Err(e),
            Ok(before) => if bit(nulls, rows.last() as int) {
                Ok(before.push(None))
            } else {
                match like_cell(src, rows.last() as int) {
                    Err(e) => Err(e),
                    Ok(v) => Ok(before.push(v)),
                }
            },
        }
    }
}

proof fn like_cells_failed(src: LikeSourceSeq, nulls: Seq<u8>, rows: Seq<usize>, j: int)
    requires
        0 <= j <= rows.len(),
        like_cells(src, nulls, rows.take(j)) is Err,
    ensures
        like_cells(src, nulls, rows) == like_cells(src, nulls, rows.take(j)),
    decreases rows.len() - j,
{
    if j < rows.len() {
        assert(rows.take(j + 1).drop_last() =~= rows.take(j));
        like_cells_failed(src, nulls, rows, j + 1);
    } else {
        assert(rows.take(j) =~= rows);
    }
}

fn get_like_cells(src: &LikeSource, nulls: &[u8], rows: &Vec<usize>) -> (r: Result<
    Vec<Option<Cell>>,
    ScanError,
>)
    requires
        src.wf(),
    ensures
        crate::cells::cells_result(r) == like_cells(src@, nulls@, rows@),
{
    let mut out: Vec<Option<Cell>> = Vec::with_capacity(rows.len());
    let mut i: usize = 0;
    assert(rows@.take(0) =~= Seq::empty());
    assert(cells_view(out@) =~= Seq::empty());
    while i < rows.len()
        invariant
            i <= rows@.len(),
            src.wf(),
            like_cells(src@, nulls@, rows@.take(i as int)) == Ok::<
                Seq<Option<CellSeq>>,
                ScanError,
            >(cells_view(out@)),
        decreases rows@.len() - i,
    {
        let row: usize = rows[i];
        let ghost before = cells_view(out@);
        proof {
            assert(rows@.take(i + 1).drop_last() =~= rows@.take(i as int));
            assert(rows@.take(i + 1).last() == row);
        }
        if test_bit(nulls, row) {
            out.push(None);
            assert(cells_view(out@) =~= before.push(None));
        } else {
            match get_like_cell(src, row) {
                Err(e) => {
                    proof {
                        like_cells_failed(src@, nulls@, rows@, i + 1);
                    }
                    return Err(e);
                },
                Ok(v) => {
                    let ghost now = cell_view(v);
                    out.push(v);
                    assert(cells_view(out@) =~= before.push(now));
                },
            }
        }
        i = i + 1;
    }
    assert(rows@.take(rows@.len() as int) =~= rows@);
    Ok(out)
}

/// What the values of a column are collected as; texts where they have no kind of their own.
pub open spec fn like_slot(kind: ColumnType) -> Slot {
    if is_int(kind) {
        Slot::Int
    } else if is_float(kind) {
        Slot::Real
    } else if kind is Bool {
        Slot::Truth
    } else {
        Slot::Text
    }
}

fn get_like_slot(kind: ColumnType) -> (r: Slot)
    ensures
        r == like_slot(kind),
{
    if kind.is_int() {
        Slot::Int
    } else if kind.is_float() {
        Slot::Real
    } else if kind == ColumnType::Bool {
        Slot::Truth
    } else {
        Slot::Text
    }
}

/// Where the values of a column come from. `None` where a dictionary of doubles cannot be read, and
/// where the decoded column is of another kind.
#[verifier::opaque]
pub open spec fn like_source<C: ColumnCodec>(c: C, kind: ColumnType, col: Seq<u8>) -> Option<
    LikeSourceSeq,
> {
    let payload = tail(col, 1);
    let plain = col[0] == COL_ENCODING_PLAIN;
    if plain && is_int(kind) && payload.len() >= 8 {
        Some(LikeSourceSeq::Numbers(SourceSeq::Ints(payload)))
    } else if plain && is_float(kind) && payload.len() >= 8 {
        Some(LikeSourceSeq::Numbers(SourceSeq::Reals(payload)))
    } else if col[0] == COL_ENCODING_FLOAT_DICTIONARY && is_float(kind) {
        match c.decoded(true, col, kind) {
            Some((ColumnSeq::Float64(v), _)) => Some(
                LikeSourceSeq::Numbers(SourceSeq::RealList(v)),
            ),
            _ => None,
        }
    } else if plain && kind is String && payload.len() >= 8 {
        match plain_text(payload) {
            None => Some(LikeSourceSeq::Nothing),
            Some(t) => Some(LikeSourceSeq::Texts(t)),
        }
    } else if plain && kind is StringDict && payload.len() >= 16 {
        match dict_text(payload) {
            Ok(Some(d)) => if d.size == 0 {
                Some(LikeSourceSeq::Nothing)
            } else {
                Some(LikeSourceSeq::Dict(d))
            },
            _ => Some(LikeSourceSeq::Nothing),
        }
    } else if plain && kind is Bool {
        Some(LikeSourceSeq::Truths(payload))
    } else {
        match c.decoded(true, col, kind) {
            None => Some(LikeSourceSeq::Nothing),
            Some((v, _)) => match spelled(c, v) {
                ColumnSeq::Int64(w) => if like_slot(kind) == Slot::Int {
                    Some(
                        LikeSourceSeq::Numbers(
                            SourceSeq::Whole { col: ColumnSeq::Int64(w), width: 0 },
                        ),
                    )
                } else {
                    None
                },
                ColumnSeq::Float64(w) => if like_slot(kind) == Slot::Real {
                    Some(LikeSourceSeq::Numbers(SourceSeq::RealList(w)))
                } else {
                    None
                },
                ColumnSeq::String { offsets, data } => if like_slot(kind) == Slot::Text {
                    Some(LikeSourceSeq::Strings { offsets, data })
                } else {
                    None
                },
                _ => Some(LikeSourceSeq::Nothing),
            },
        }
    }
}

fn get_like_source<'a, C: ColumnCodec>(c: &C, kind: ColumnType, col: &'a [u8]) -> (r: Option<
    LikeSource<'a>,
>)
    requires
        col.len() > 0,
    ensures
        match r {
            None => like_source(*c, kind, col@) is None,
            Some(s) => like_source(*c, kind, col@) == Some(s@) && s.wf(),
        },
{
    reveal(like_source);
    let payload: &'a [u8] = get_tail(col, 1);
    let plain: bool = col[0] == COL_ENCODING_PLAIN;
    if plain && kind.is_int() && payload.len() >= 8 {
        return Some(LikeSource::Numbers(Source::Ints(payload)));
    }
    if plain && kind.is_float() && payload.len() >= 8 {
        return Some(LikeSource::Numbers(Source::Reals(payload)));
    }
    if col[0] == COL_ENCODING_FLOAT_DICTIONARY && kind.is_float() {
        return match c.read_column(true, col, kind) {
            Some((ColumnData::Float64(v), _)) => Some(LikeSource::Numbers(Source::RealList(v))),
            _ => None,
        };
    }
    if plain && kind == ColumnType::String && payload.len() >= 8 {
        return match read_plain_text(payload) {
            None => Some(LikeSource::Nothing),
            Some(t) => Some(LikeSource::Texts(t)),
        };
    }
    if plain && kind == ColumnType::StringDict && payload.len() >= 16 {
        return match read_dict_text(payload) {
            Ok(Some(d)) => {
                if d.size == 0 {
                    Some(LikeSource::Nothing)
                } else {
                    Some(LikeSource::Dict(d))
                }
            },
            _ => Some(LikeSource::Nothing),
        };
    }
    if plain && kind == ColumnType::Bool {
        return Some(LikeSource::Truths(payload));
    }
    let slot: Slot = get_like_slot(kind);
    match c.read_column(true, col, kind) {
        None => Some(LikeSource::Nothing),
        Some((v, _)) => match v.decode_string_dict(c) {
            ColumnData::Int64(w) => {
                if slot == Slot::Int {
                    Some(
                        LikeSource::Numbers(
                            Source::Whole { col: ColumnData::Int64(w), width: 0 },
                        ),
                    )
                } else {
                    None
                }
            },
            ColumnData::Float64(w) => {
                if slot == Slot::Real {
                    Some(LikeSource::Numbers(Source::RealList(w)))
                } else {
                    None
                }
            },
            ColumnData::String { offsets, data } => {
                if slot == Slot::Text {
                    Some(LikeSource::Strings { offsets, data })
                } else {
                    None
                }
            },
            _ => Some(LikeSource::Nothing),
        },
    }
}

/// The values of rows of a column at position `at` of a body; `None` where the row group is given
/// up.
pub open spec fn like_column<C: ColumnCodec>(
    c: C,
    kind: ColumnType,
    body: Seq<u8>,
    bm: int,
    at: int,
    rows: Seq<usize>,
) -> Result<Option<Seq<Option<CellSeq>>>, ScanError> {
    match window(body, at, bm) {
        None => Ok(Some(no_cells(rows.len() as int))),
        Some(nulls) => {
            let col = tail(body, at + bm);
            if col.len() == 0 {
                Ok(Some(no_cells(rows.len() as int)))
            } else {
                match like_source(c, kind, col) {
                    None => Ok(None),
                    Some(src) => match like_cells(src, nulls, rows) {
                        Err(e) => Err(e),
                        Ok(v) => Ok(Some(v)),
                    },
                }
            }
        },
    }
}

fn get_like_column<C: ColumnCodec>(
    c: &C,
    kind: ColumnType,
    body: &[u8],
    bm: u64,
    at: u32,
    rows: &Vec<usize>,
) -> (r: Result<Option<Vec<Option<Cell>>>, ScanError>)
    ensures
        ({
            let want = like_column(*c, kind, body@, bm as int, at as int, rows@);
            match r {
                Err(e) => want == Err::<Option<Seq<Option<CellSeq>>>, ScanError>(e),
                Ok(None) => want == Ok::<Option<Seq<Option<CellSeq>>>, ScanError>(None),
                Ok(Some(v)) => want == Ok::<Option<Seq<Option<CellSeq>>>, ScanError>(
                    Some(cells_view(v@)),
                ),
            }
        }),
{
    let nulls: &[u8] = match get_window(body, at as u64, bm) {
        None => {
            return Ok(Some(get_no_cells(rows.len())));
        },
        Some(w) => w,
    };
    let col: &[u8] = get_tail(body, (at as u64 + bm) as usize);
    if col.len() == 0 {
        return Ok(Some(get_no_cells(rows.len())));
    }
    match get_like_source(c, kind, col) {
        None => Ok(None),
        Some(src) => match get_like_cells(&src, nulls, rows) {
            Err(e) => Err(e),
            Ok(v) => Ok(Some(v)),
        },
    }
}

/// The values of rows of the first `k` columns of row group `i`; `None` where it is given up.
pub open spec fn like_columns<C: ColumnCodec>(
    c: C,
    f: V4Footer,
    body: Seq<u8>,
    i: int,
    rows: Seq<usize>,
    k: int,
) -> Result<Option<Seq<Seq<Option<CellSeq>>>>, ScanError>
    decreases k,
{
    if k <= 0 {
        Ok(Some(Seq::empty()))
    } else {
        match like_columns(c, f, body, i, rows, k - 1) {
            Ok(Some(before)) => match like_column(
                c,
                f.schema.kind(k - 1),
                body,
                bitmap_len(f.row_groups@[i].row_count as int),
                f.col_offsets@[i]@[k - 1] as int,
                rows,
            ) {
                Err(e) => Err(e),
                Ok(None) => Ok(None),
                Ok(Some(v)) => Ok(Some(before.push(v))),
            },
            other => other,
        }
    }
}

proof fn like_columns_over<C: ColumnCodec>(
    c: C,
    f: V4Footer,
    body: Seq<u8>,
    i: int,
    rows: Seq<usize>,
    j: int,
    k: int,
)
    requires
        0 <= j <= k,
        !(like_columns(c, f, body, i, rows, j) matches Ok(Some(_))),
    ensures
        like_columns(c, f, body, i, rows, k) == like_columns(c, f, body, i, rows, j),
    decreases k,
{
    if j < k {
        like_columns_over(c, f, body, i, rows, j, k - 1);
    }
}

fn get_like_columns<C: ColumnCodec>(c: &C, f: &V4Footer, body: &[u8], i: usize, rows: &Vec<usize>) -> (r:
    Result<Option<Vec<Vec<Option<Cell>>>>, ScanError>)
    requires
        i < f.row_groups@.len(),
        i < f.col_offsets@.len(),
        f.col_offsets@[i as int]@.len() >= f.schema.columns@.len(),
    ensures
        ({
            let want = like_columns(
                *c,
                *f,
                body@,
                i as int,
                rows@,
                f.schema.columns@.len() as int,
            );
            match r {
                Err(e) => want == Err::<Option<Seq<Seq<Option<CellSeq>>>>, ScanError>(e),
                Ok(None) => want == Ok::<Option<Seq<Seq<Option<CellSeq>>>>, ScanError>(None),
                Ok(Some(v)) => want == Ok::<Option<Seq<Seq<Option<CellSeq>>>>, ScanError>(
                    Some(bufs_view(v@)),
                ) && v@.len() == f.schema.columns@.len(),
            }
        }),
{
    let bm: u64 = rg_bitmap_len(f.row_groups[i].row_count);
    let ghost all = f.schema.columns@.len() as int;
    let mut out: Vec<Vec<Option<Cell>>> = Vec::with_capacity(f.schema.columns.len());
    let mut k: usize = 0;
    assert(bufs_view(out@) =~= Seq::empty());
    while k < f.schema.columns.len()
        invariant
            k <= f.schema.columns@.len(),
            all == f.schema.columns@.len(),
            i < f.row_groups@.len(),
            i < f.col_offsets@.len(),
            f.col_offsets@[i as int]@.len() >= f.schema.columns@.len(),
            bm == bitmap_len(f.row_groups@[i as int].row_count as int),
            out@.len() == k,
            like_columns(*c, *f, body@, i as int, rows@, k as int) == Ok::<
                Option<Seq<Seq<Option<CellSeq>>>>,
                ScanError,
            >(Some(bufs_view(out@))),
        decreases f.schema.columns@.len() - k,
    {
        match get_like_column(
            c,
            f.schema.columns[k].1,
            body,
            bm,
            f.col_offsets[i][k],
            rows,
        ) {
            Err(e) => {
                proof {
                    like_columns_over(*c, *f, body@, i as int, rows@, k + 1, all);
                }
                return Err(e);
            },
            Ok(None) => {
                proof {
                    like_columns_over(*c, *f, body@, i as int, rows@, k + 1, all);
                }
                return Ok(None);
            },
            Ok(Some(v)) => {
                let ghost before = bufs_view(out@);
                let ghost now = cells_view(v@);
                out.push(v);
                assert(bufs_view(out@) =~= before.push(now));
            },
        }
        k = k + 1;
    }
    Ok(Some(out))
}

/// The identifiers of some rows, 0 where one is cut off.
pub open spec fn ids_or_zero(body: Seq<u8>, min_id: u64, ids: u8, rows: Seq<usize>) -> Seq<i64> {
    Seq::new(
        rows.len(),
        |k: int|
            match id_at(body, min_id, ids, rows[k] as int) {
                None => 0i64,
                Some(id) => signed(id) as i64,
            },
    )
}

fn get_ids_or_zero(body: &[u8], min_id: u64, ids: u8, rows: &Vec<usize>) -> (r: Vec<i64>)
    requires
        forall|j: int| 0 <= j < rows@.len() ==> #[trigger] rows@[j] <= u32::MAX,
    ensures
        r@ == ids_or_zero(body@, min_id, ids, rows@),
{
    let mut out: Vec<i64> = Vec::with_capacity(rows.len());
    let mut k: usize = 0;
    while k < rows.len()
        invariant
            k <= rows@.len(),
            forall|j: int| 0 <= j < rows@.len() ==> #[trigger] rows@[j] <= u32::MAX,
            out@ =~= ids_or_zero(body@, min_id, ids, rows@).take(k as int),
        decreases rows@.len() - k,
    {
        assert(rows@[k as int] <= u32::MAX);
        match rg_id_at(body, min_id, ids, rows[k] as u32) {
            None => {
                out.push(0);
            },
            Some(id) => {
                out.push(as_signed(id));
            },
        }
        k = k + 1;
    }
    assert(ids_or_zero(body@, min_id, ids, rows@).take(rows@.len() as int) =~= ids_or_zero(
        body@,
        min_id,
        ids,
        rows@,
    ));
    out
}

/// The rows of row group `i` that match a pattern.
pub open spec fn like_rows<C: ColumnCodec>(c: C, f: V4Footer, q: LikeQuerySeq, quick: QuickSeq, i: int) -> Result<
    Seq<usize>,
    ScanError,
> {
    let meta = f.row_groups@[i];
    q.rows(
        c,
        quick.encoding,
        quick.data,
        false,
        if meta.deletion_count > 0 {
            quick.deleted
        } else {
            None
        },
        quick.nulls,
        meta.row_count as int,
        0,
        Seq::empty(),
    )
}

/// Matching rows are rows of their row group.
proof fn like_rows_bound<C: ColumnCodec>(c: C, f: V4Footer, q: LikeQuerySeq, quick: QuickSeq, i: int)
    ensures
        like_rows(c, f, q, quick, i) matches Ok(v) ==> forall|k: int|
            0 <= k < v.len() ==> #[trigger] v[k] <= u32::MAX,
{
    let meta = f.row_groups@[i];
    let test = crate::text::StrTestSeq::Like(q.shape);
    let del = if meta.deletion_count > 0 {
        quick.deleted
    } else {
        None
    };
    match plain_text(quick.data) {
        None => {},
        Some(t) => {
            crate::select::select_checked_adds(
                crate::text::strict_rows(t, test, del, Some(quick.nulls)),
                min2(t.count, meta.row_count as int),
                0,
                Seq::empty(),
                q.max,
            );
        },
    }
    match c.dictionary(
        quick.encoding == crate::model::COL_ENCODING_COMPACT_DICTIONARY,
        quick.data,
    ) {
        None => {},
        Some(d) => {
            crate::select::select_adds(
                crate::text::dict_rows(d, test, del, None),
                min2(d.indices.len() as int, meta.row_count as int),
                0,
                Seq::empty(),
                q.max,
            );
        },
    }
}

/// What is collected: the identifiers of the matching rows and the values of each column.
#[verifier::ext_equal]
pub struct LikeSt {
    pub ids: Seq<i64>,
    pub bufs: Seq<Seq<Option<CellSeq>>>,
}

/// What is collected.
pub struct LikeState {
    pub ids: Vec<i64>,
    pub bufs: Vec<Vec<Option<Cell>>>,
}

impl View for LikeState {
    type V = LikeSt;

    open spec fn view(&self) -> LikeSt {
        LikeSt { ids: self.ids@, bufs: bufs_view(self.bufs@) }
    }
}

/// Values of several columns, each followed by more.
pub open spec fn bufs_joined(a: Seq<Seq<Option<CellSeq>>>, b: Seq<Seq<Option<CellSeq>>>) -> Seq<
    Seq<Option<CellSeq>>,
> {
    Seq::new(a.len(), |k: int| a[k] + b[k])
}

fn join_bufs(a: &mut Vec<Vec<Option<Cell>>>, b: Vec<Vec<Option<Cell>>>)
    requires
        old(a)@.len() == b@.len(),
    ensures
        final(a)@.len() == old(a)@.len(),
        bufs_view(final(a)@) == bufs_joined(bufs_view(old(a)@), bufs_view(b@)),
{
    let ghost was = bufs_view(a@);
    let ghost add = bufs_view(b@);
    let n: usize = a.len();
    let mut b: Vec<Vec<Option<Cell>>> = b;
    while b.len() > 0
        invariant
            b@.len() <= n,
            a@.len() == n,
            was.len() == n,
            add.len() == n,
            bufs_view(b@) =~= add.take(b@.len() as int),
            forall|k: int| 0 <= k < b@.len() ==> cells_view((#[trigger] a@[k])@) == was[k],
            forall|k: int| b@.len() <= k < n ==> cells_view((#[trigger] a@[k])@) == was[k] + add[k],
        decreases b@.len(),
    {
        let at: usize = b.len() - 1;
        let ghost prior = a@;
        let ghost left = b@;
        match b.pop() {
            None => {},
            Some(x) => {
                let mut x: Vec<Option<Cell>> = x;
                proof {
                    assert(bufs_view(left)[at as int] == add[at as int]);
                    assert(cells_view(x@) == add[at as int]);
                    assert(bufs_view(b@) =~= add.take(at as int));
                }
                let mut own: Vec<Option<Cell>> = a.remove(at);
                let ghost had = cells_view(own@);
                own.append(&mut x);
                let ghost now = own;
                assert(cells_view(own@) =~= had + add[at as int]);
                a.insert(at, own);
                assert(a@ =~= prior.update(at as int, now));
            },
        }
    }
    assert(bufs_view(a@) =~= bufs_joined(was, add));
}

/// The matching rows of row group `i` after those that are collected. A row group that cannot be
/// read gives none.
pub open spec fn like_group<C: ColumnCodec>(
    c: C,
    f: V4Footer,
    file: Seq<u8>,
    q: LikeQuerySeq,
    i: int,
    st: LikeSt,
) -> Result<LikeSt, ScanError> {
    let meta = f.row_groups@[i];
    match quick_column(f, file, q.col, i) {
        None => Ok(st),
        Some(quick) => match like_rows(c, f, q, quick, i) {
            Err(e) => Err(e),
            Ok(rows) => if rows.len() == 0 {
                Ok(st)
            } else {
                let s = stored_group(meta, file)->Ok_0;
                let body = tail(s, 32);
                let ids = if id_section(meta.row_count as int, s[30]) == 0 {
                    RG_IDS_IMPLICIT_CONTIGUOUS
                } else {
                    RG_IDS_PLAIN
                };
                match like_columns(c, f, body, i, rows, f.schema.columns@.len() as int) {
                    Err(e) => Err(e),
                    Ok(None) => Ok(st),
                    Ok(Some(v)) => Ok(
                        LikeSt {
                            ids: st.ids + ids_or_zero(body, meta.min_id, ids, rows),
                            bufs: bufs_joined(st.bufs, v),
                        },
                    ),
                }
            },
        },
    }
}

fn add_like_group<C: ColumnCodec>(
    c: &C,
    f: &V4Footer,
    file: &[u8],
    q: &LikeQuery,
    i: usize,
    st: &mut LikeState,
) -> (r: Result<(), ScanError>)
    requires
        i < f.row_groups@.len(),
        i < f.col_offsets@.len(),
        f.col_offsets@[i as int]@.len() >= f.schema.columns@.len(),
        old(st).bufs@.len() == f.schema.columns@.len(),
    ensures
        final(st).bufs@.len() == f.schema.columns@.len(),
        match r {
            Err(e) => like_group(*c, *f, file@, q@, i as int, old(st)@) == Err::<LikeSt, ScanError>(
                e,
            ),
            Ok(_) => like_group(*c, *f, file@, q@, i as int, old(st)@) == Ok::<LikeSt, ScanError>(
                final(st)@,
            ),
        },
{
    let meta: RowGroupMeta = f.row_groups[i];
    let quick: QuickColumn = match get_quick_column(f, file, q.col, i) {
        None => {
            return Ok(());
        },
        Some(x) => x,
    };
    let del: Option<&[u8]> = if meta.deletion_count > 0 {
        quick.deleted
    } else {
        None
    };
    let mut rows: Vec<usize> = Vec::new();
    assert(rows@ =~= Seq::empty());
    match q.rows(c, quick.encoding, quick.data, false, del, quick.nulls, meta.row_count, 0, &mut rows) {
        Err(e) => {
            return Err(e);
        },
        Ok(_) => {},
    }
    assert(like_rows(*c, *f, q@, quick@, i as int) == Ok::<Seq<usize>, ScanError>(rows@));
    proof {
        like_rows_bound(*c, *f, q@, quick@, i as int);
    }
    if rows.len() == 0 {
        return Ok(());
    }
    if let Ok(s) = get_stored(&meta, file) {
        let body: &[u8] = get_tail(s, 32);
        let ids: u8 = if rg_id_section_len(meta.row_count, s[30]) == 0 {
            RG_IDS_IMPLICIT_CONTIGUOUS
        } else {
            RG_IDS_PLAIN
        };
        match get_like_columns(c, f, body, i, &rows) {
            Err(e) => {
                return Err(e);
            },
            Ok(None) => {
                return Ok(());
            },
            Ok(Some(v)) => {
                let ghost was = st@;
                let ghost add = bufs_view(v@);
                let mut own: Vec<i64> = get_ids_or_zero(body, meta.min_id, ids, &rows);
                let ghost more = own@;
                st.ids.append(&mut own);
                join_bufs(&mut st.bufs, v);
                assert(st@ =~= LikeSt { ids: was.ids + more, bufs: bufs_joined(was.bufs, add) });
            },
        }
    }
    Ok(())
}

/// The matching rows of the first `k` row groups.
pub open spec fn like_upto<C: ColumnCodec>(c: C, f: V4Footer, file: Seq<u8>, q: LikeQuerySeq, k: int) -> Result<
    LikeSt,
    ScanError,
>
    decreases k,
{
    if k <= 0 {
        Ok(
            LikeSt {
                ids: Seq::empty(),
                bufs: Seq::new(f.schema.columns@.len(), |p: int| Seq::empty()),
            },
        )
    } else {
        match like_upto(c, f, file, q, k - 1) {
            Err(e) => Err(e),
            Ok(st) => like_group(c, f, file, q, k - 1, st),
        }
    }
}

proof fn like_upto_failed<C: ColumnCodec>(
    c: C,
    f: V4Footer,
    file: Seq<u8>,
    q: LikeQuerySeq,
    j: int,
    k: int,
)
    requires
        0 <= j <= k,
        like_upto(c, f, file, q, j) is Err,
    ensures
        like_upto(c, f, file, q, k) == like_upto(c, f, file, q, j),
    decreases k,
{
    if j < k {
        like_upto_failed(c, f, file, q, j, k - 1);
    }
}

/// Matching rows: their identifiers and all their columns.
#[derive(Debug, PartialEq, Eq)]
pub struct LikeBatch {
    pub ids: Vec<i64>,
    pub columns: Vec<(String, MmapBatchColumn)>,
}

/// Matching rows, as sequences.
#[verifier::ext_equal]
pub struct LikeBatchSeq {
    pub ids: Seq<i64>,
    pub columns: Seq<(Seq<char>, BatchColumnSeq)>,
}

impl View for LikeBatch {
    type V = LikeBatchSeq;

    open spec fn view(&self) -> LikeBatchSeq {
        LikeBatchSeq { ids: self.ids@, columns: typed_columns_view(self.columns@) }
    }
}

/// The first `n` entries, all of them where there are fewer.
pub open spec fn first_entries<A>(s: Seq<A>, n: int) -> Seq<A> {
    s.take(min2(s.len() as int, n))
}

/// What was collected, as far as a limit goes.
pub open spec fn like_batch(schema: OnDemandSchema, st: LikeSt, max: int) -> LikeBatchSeq {
    LikeBatchSeq {
        ids: first_entries(st.ids, max),
        columns: Seq::new(
            schema.columns@.len(),
            |k: int|
                (
                    schema.columns@[k].0@,
                    typed_column(like_slot(schema.kind(k)), first_entries(st.bufs[k], max)),
                ),
        ),
    }
}

fn make_like_batch(schema: &OnDemandSchema, st: LikeState, max: usize) -> (r: LikeBatch)
    requires
        st.bufs@.len() == schema.columns@.len(),
    ensures
        r@ == like_batch(*schema, st@, max as int),
{
    let ghost all = st@;
    let mut ids: Vec<i64> = st.ids;
    let mut bufs: Vec<Vec<Option<Cell>>> = st.bufs;
    ids.truncate(max);
    assert(ids@ =~= first_entries(all.ids, max as int));
    let mut columns: Vec<(String, MmapBatchColumn)> = Vec::with_capacity(schema.columns.len());
    let ghost want = like_batch(*schema, all, max as int).columns;
    let mut k: usize = 0;
    while k < schema.columns.len()
        invariant
            k <= schema.columns@.len(),
            all.bufs.len() == schema.columns@.len(),
            want == like_batch(*schema, all, max as int).columns,
            bufs@.len() == schema.columns@.len(),
            forall|j: int|
                k <= j < schema.columns@.len() ==> cells_view((#[trigger] bufs@[j])@)
                    == all.bufs[j],
            columns@.len() == k,
            forall|j: int| 0 <= j < k ==> ((#[trigger] columns@[j]).0@, columns@[j].1@) == want[j],
        decreases schema.columns@.len() - k,
    {
        let ghost prior = bufs@;
        let mut own: Vec<Option<Cell>> = bufs.remove(k);
        own.truncate(max);
        let ghost mine = own;
        assert(cells_view(own@) =~= first_entries(all.bufs[k as int], max as int));
        let col: MmapBatchColumn = make_typed_column(get_like_slot(schema.columns[k].1), &own);
        columns.push((schema.columns[k].0.as_str().to_owned(), col));
        bufs.insert(k, own);
        assert(bufs@ =~= prior.update(k as int, mine));
        k = k + 1;
    }
    assert(typed_columns_view(columns@) =~= want);
    LikeBatch { ids, columns }
}

/// Matching rows, where there is an answer.
pub open spec fn like_batch_view(r: Result<Option<LikeBatch>, ScanError>) -> Result<
    Option<LikeBatchSeq>,
    ScanError,
> {
    match r {
        Err(e) => Err(e),
        Ok(None) => Ok(None),
        Ok(Some(b)) => Ok(Some(b@)),
    }
}

impl<C: ColumnCodec> OnDemandStorage<C> {
    /// The rows whose string matches a pattern, with all their columns, up to a limit. There is no
    /// answer for a pattern without wildcards or without a shape, nor where a row group is
    /// compressed, untagged or without all its columns on record.
    pub open spec fn like_extract(
        self,
        col_name: Seq<char>,
        pattern: Seq<char>,
        limit: Option<usize>,
    ) -> Result<Option<LikeBatchSeq>, ScanError> {
        if plain(encode_utf8(pattern)) {
            Ok(None)
        } else {
            match (shape_of(pattern), self.footer) {
                (Some(shape), Some(f)) => match f.schema.index_of(col_name) {
                    None => Ok(None),
                    Some(col) => {
                        let kind = f.schema.kind(col as int);
                        let q = LikeQuerySeq {
                            col: col as int,
                            dict: kind is StringDict,
                            shape,
                            max: usize::MAX as int,
                        };
                        if !is_text(kind) {
                            Ok(None)
                        } else {
                            match self.file {
                                None => Err(ScanError::NotOpen),
                                Some(file) => if !all_quick(
                                    f,
                                    file@,
                                    f.schema.columns@.len() - 1,
                                ) {
                                    Ok(None)
                                } else {
                                    match like_upto(
                                        self.codec,
                                        f,
                                        file@,
                                        q,
                                        f.row_groups@.len() as int,
                                    ) {
                                        Err(e) => Err(e),
                                        Ok(st) => Ok(
                                            Some(
                                                like_batch(
                                                    f.schema,
                                                    st,
                                                    crate::storage::max_rows(limit),
                                                ),
                                            ),
                                        ),
                                    }
                                },
                            }
                        }
                    },
                },
                _ => Ok(None),
            }
        }
    }

    /// Finds the rows whose string matches a pattern and describes the batch of all their columns.
    pub fn describe_like_rows(&self, col_name: &str, pattern: &str, limit: Option<usize>) -> (r:
        Result<Option<LikeBatch>, ScanError>)
        ensures
            like_batch_view(r) == self.like_extract(col_name@, pattern@, limit),
    {
        if is_plain(pattern.as_bytes()) {
            return Ok(None);
        }
        let like: LikeKind = match classify_like_pattern(pattern) {
            None => {
                return Ok(None);
            },
            Some(k) => k,
        };
        let f: &V4Footer = match &self.footer {
            None => {
                return Ok(None);
            },
            Some(f) => f,
        };
        let col: usize = match f.schema.get_index(col_name) {
            None => {
                return Ok(None);
            },
            Some(i) => i,
        };
        let kind: ColumnType = f.schema.columns[col].1;
        if !kind.is_text() {
            return Ok(None);
        }
        let file: &Vec<u8> = match &self.file {
            None => {
                return Err(ScanError::NotOpen);
            },
            Some(v) => v,
        };
        let last: usize = f.schema.columns.len() - 1;
        if !are_all_quick(f, file.as_slice(), last) {
            return Ok(None);
        }
        let q: LikeQuery = LikeQuery {
            col,
            dict: matches!(kind, ColumnType::StringDict),
            kind: &like,
            max: usize::MAX,
        };
        let mut bufs: Vec<Vec<Option<Cell>>> = Vec::with_capacity(f.schema.columns.len());
        let mut k: usize = 0;
        while k < f.schema.columns.len()
            invariant
                k <= f.schema.columns@.len(),
                bufs@.len() == k,
                forall|j: int|
                    0 <= j < k ==> cells_view((#[trigger] bufs@[j])@) == Seq::<
                        Option<CellSeq>,
                    >::empty(),
            decreases f.schema.columns@.len() - k,
        {
            let none: Vec<Option<Cell>> = Vec::new();
            assert(cells_view(none@) =~= Seq::empty());
            bufs.push(none);
            k = k + 1;
        }
        let mut st: LikeState = LikeState { ids: Vec::new(), bufs };
        let groups: usize = f.row_groups.len();
        let ghost want = like_upto(self.codec, *f, file@, q@, groups as int);
        assert(bufs_view(st.bufs@) =~= Seq::new(
            f.schema.columns@.len(),
            |p: int| Seq::<Option<CellSeq>>::empty(),
        ));
        let mut i: usize = 0;
        while i < groups
            invariant
                i <= groups,
                groups == f.row_groups@.len(),
                last == f.schema.columns@.len() - 1,
                all_quick(*f, file@, last as int),
                st.bufs@.len() == f.schema.columns@.len(),
                want == like_upto(self.codec, *f, file@, q@, groups as int),
                like_upto(self.codec, *f, file@, q@, i as int) == Ok::<LikeSt, ScanError>(st@),
                self.like_extract(col_name@, pattern@, limit) == (match want {
                    Err(e) => Err(e),
                    Ok(st) => Ok(
                        Some(like_batch(f.schema, st, crate::storage::max_rows(limit))),
                    ),
                }),
            decreases groups - i,
        {
            assert(crate::text_scan::quick_group(*f, file@, last as int, i as int));
            match add_like_group(&self.codec, f, file.as_slice(), &q, i, &mut st) {
                Err(e) => {
                    proof {
                        like_upto_failed(
                            self.codec,
                            *f,
                            file@,
                            q@,
                            i + 1,
                            groups as int,
                        );
                    }
                    return Err(e);
                },
                Ok(_) => {},
            }
            i = i + 1;
        }
        let max: usize = match limit {
            None => usize::MAX,
            Some(n) => n,
        };
        Ok(Some(make_like_batch(&f.schema, st, max)))
    }
}

} // verus!
