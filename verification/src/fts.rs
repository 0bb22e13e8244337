//! Reading string columns for a text index.

use vstd::prelude::*;

use crate::bytes::{bit, bitmap_len, read_u64, test_bit, u64_le};
use crate::codec::ColumnCodec;
use crate::column::{ColumnData, ColumnSeq};
use crate::column_ops::{
    create_default_column, default_column, empty_column, joined, picked, rows_of_column, spelled,
    without_nulls,
};
use crate::column_scan::columns_view;
use crate::group::{
    get_stored, get_tail, get_window, id_section, rg_bitmap_len, rg_id_section_len, stored_group,
    tail, window,
};
use crate::model::{
    is_text, ColumnType, RowGroupMeta, ScanError, V4Footer, RG_COMPRESS_NONE,
    RG_IDS_IMPLICIT_CONTIGUOUS,
};
use crate::scattered::{bits_at, get_bits_at};
use crate::storage::OnDemandStorage;
use crate::text_scan::{any_set, has_bits};

verus! {

/// The rows below `n` whose bit is clear.
pub open spec fn live_rows(deleted: Seq<u8>, n: int) -> Seq<usize>
    decreases n,
{
    if n <= 0 {
        Seq::empty()
    } else if bit(deleted, n - 1) {
        live_rows(deleted, n - 1)
    } else {
        live_rows(deleted, n - 1).push((n - 1) as usize)
    }
}

/// Live rows are rows.
pub proof fn live_rows_bound(deleted: Seq<u8>, n: int)
    requires
        0 <= n <= usize::MAX,
    ensures
        live_rows(deleted, n).len() <= n,
        forall|i: int| 0 <= i < live_rows(deleted, n).len() ==> #[trigger] live_rows(deleted, n)[i]
            < n,
    decreases n,
{
    if n > 0 {
        live_rows_bound(deleted, n - 1);
    }
}

/// Finds the rows below `n` whose bit is clear.
pub fn get_live_rows(deleted: &[u8], n: u32) -> (r: Vec<usize>)
    ensures
        r@ == live_rows(deleted@, n as int),
{
    let mut out: Vec<usize> = Vec::new();
    let mut i: u32 = 0;
    assert(out@ =~= Seq::empty());
    while i < n
        invariant
            i <= n,
            out@ == live_rows(deleted@, i as int),
        decreases n - i,
    {
        if !test_bit(deleted, i as usize) {
            out.push(i as usize);
        }
        i = i + 1;
    }
    out
}

/// The first 32 bits of an identifier.
pub open spec fn short_id(id: int) -> u32 {
    (id % 0x1_0000_0000) as u32
}

/// `acc` with the short identifiers of some rows; `None` where one is beyond the range of an
/// identifier.
pub open spec fn short_ids(
    body: Seq<u8>,
    implicit: bool,
    min_id: int,
    rows: Seq<usize>,
    acc: Seq<u32>,
) -> Option<Seq<u32>>
    decreases rows.len(),
{
    if rows.len() == 0 {
        Some(acc)
    } else {
        match short_ids(body, implicit, min_id, rows.drop_last(), acc) {
            None => None,
            Some(before) => {
                let row = rows.last() as int;
                let id = if implicit {
                    min_id + row
                } else {
                    u64_le(body, row * 8) as int
                };
                if id > u64::MAX {
                    None
                } else {
                    Some(before.push(short_id(id)))
                }
            },
        }
    }
}

proof fn short_ids_failed(
    body: Seq<u8>,
    implicit: bool,
    min_id: int,
    rows: Seq<usize>,
    acc: Seq<u32>,
    j: int,
)
    requires
        0 <= j <= rows.len(),
        short_ids(body, implicit, min_id, rows.take(j), acc) is None,
    ensures
        short_ids(body, implicit, min_id, rows, acc) is None,
    decreases rows.len() - j,
{
    if j < rows.len() {
        assert(rows.take(j + 1).drop_last() =~= rows.take(j));
        short_ids_failed(body, implicit, min_id, rows, acc, j + 1);
    } else {
        assert(rows.take(j) =~= rows);
    }
}

fn add_short_ids(body: &[u8], implicit: bool, min_id: u64, rows: &Vec<usize>, acc: &mut Vec<u32>) -> (ok:
    bool)
    requires
        !implicit ==> forall|i: int|
            0 <= i < rows@.len() ==> (#[trigger] rows@[i] + 1) * 8 <= body.len(),
    ensures
        ok ==> short_ids(body@, implicit, min_id as int, rows@, old(acc)@) == Some(final(acc)@),
        !ok ==> short_ids(body@, implicit, min_id as int, rows@, old(acc)@) is None,
{
    let ghost start = acc@;
    let mut i: usize = 0;
    assert(rows@.take(0) =~= Seq::empty());
    while i < rows.len()
        invariant
            i <= rows@.len(),
            start == old(acc)@,
            !implicit ==> forall|i: int|
                0 <= i < rows@.len() ==> (#[trigger] rows@[i] + 1) * 8 <= body.len(),
            short_ids(body@, implicit, min_id as int, rows@.take(i as int), start) == Some(acc@),
        decreases rows@.len() - i,
    {
        let row: usize = rows[i];
        proof {
            assert(rows@.take(i + 1).drop_last() =~= rows@.take(i as int));
            assert(rows@.take(i + 1).last() == row);
            assert(rows@[i as int] == row);
        }
        let id: u64 = if implicit {
            if row as u64 > u64::MAX - min_id {
                proof {
                    short_ids_failed(body@, implicit, min_id as int, rows@, start, i + 1);
                }
                return false;
            }
            min_id + row as u64
        } else {
            read_u64(body, row * 8)
        };
        acc.push((id % 0x1_0000_0000) as u32);
        i = i + 1;
    }
    assert(rows@.take(rows@.len() as int) =~= rows@);
    true
}

/// What one row group adds to a text column: the strings of its live rows, nothing where they are
/// missing.
#[verifier::opaque]
pub open spec fn text_piece<C: ColumnCodec>(
    c: C,
    f: V4Footer,
    body: Seq<u8>,
    i: int,
    col: int,
    live: Option<Seq<usize>>,
) -> Result<ColumnSeq, ScanError> {
    let rows = f.row_groups@[i].row_count as int;
    let bm = bitmap_len(rows);
    match f.rcix(i, col) {
        None => Ok(
            default_column(
                c,
                ColumnType::String,
                match live {
                    None => rows,
                    Some(v) => v.len() as int,
                },
            ),
        ),
        Some(o) => match window(body, o, bm) {
            None => Err(ScanError::NullsTruncated),
            Some(nulls) => match c.decoded(true, tail(body, o + bm), f.schema.kind(col)) {
                None => Err(ScanError::Codec),
                Some((v, _)) => {
                    let whole = spelled(c, v);
                    match live {
                        None => Ok(
                            if has_bits(nulls) {
                                without_nulls(c, whole, nulls, rows_of_column(c, whole))
                            } else {
                                whole
                            },
                        ),
                        Some(places) => {
                            let part = picked(c, whole, places);
                            Ok(
                                if has_bits(nulls) {
                                    without_nulls(
                                        c,
                                        part,
                                        bits_at(nulls, places)->Bool_data,
                                        rows_of_column(c, part),
                                    )
                                } else {
                                    part
                                },
                            )
                        },
                    }
                },
            },
        },
    }
}

/// Places, where there are some.
pub open spec fn places_view(v: Option<Vec<usize>>) -> Option<Seq<usize>> {
    match v {
        None => None,
        Some(p) => Some(p@),
    }
}

fn get_text_piece<C: ColumnCodec>(
    c: &C,
    f: &V4Footer,
    body: &[u8],
    i: usize,
    col: usize,
    live: &Option<Vec<usize>>,
) -> (r: Result<ColumnData, ScanError>)
    requires
        i < f.row_groups@.len(),
        col < f.schema.columns@.len(),
    ensures
        crate::reads::column_is(
            r,
            text_piece(*c, *f, body@, i as int, col as int, places_view(*live)),
        ),
{
    reveal(text_piece);
    let rows: u32 = f.row_groups[i].row_count;
    let bm: u64 = rg_bitmap_len(rows);
    let o: u64 = match f.column_offset(i, col) {
        None => {
            let n: usize = match live {
                None => rows as usize,
                Some(v) => v.len(),
            };
            return Ok(create_default_column(c, ColumnType::String, n));
        },
        Some(o) => o as u64,
    };
    let nulls: &[u8] = match get_window(body, o, bm) {
        None => {
            return Err(ScanError::NullsTruncated);
        },
        Some(w) => w,
    };
    let whole: ColumnData = match c.read_column(
        true,
        get_tail(body, (o + bm) as usize),
        f.schema.columns[col].1,
    ) {
        None => {
            return Err(ScanError::Codec);
        },
        Some((v, _)) => v.decode_string_dict(c),
    };
    let missing: bool = any_set(nulls);
    match live {
        None => {
            if missing {
                Ok(whole.apply_null_bitmap(c, nulls))
            } else {
                Ok(whole)
            }
        },
        Some(places) => {
            let part: ColumnData = whole.filter_by_indices(c, places.as_slice());
            if missing {
                let bits: ColumnData = get_bits_at(nulls, places.as_slice());
                if let ColumnData::Bool { data, .. } = &bits {
                    return Ok(part.apply_null_bitmap(c, data.as_slice()));
                }
                let n: usize = places.len();
                proof {
                    crate::scattered::bits_at_len(nulls@, places@);
                }
            }
            Ok(part)
        },
    }
}

/// Columns with what a row group adds to the first `p` of them.
pub open spec fn text_pieces<C: ColumnCodec>(
    c: C,
    f: V4Footer,
    body: Seq<u8>,
    i: int,
    cols: Seq<usize>,
    live: Option<Seq<usize>>,
    acc: Seq<ColumnSeq>,
    p: int,
) -> Result<Seq<ColumnSeq>, ScanError>
    decreases p,
{
    if p <= 0 {
        Ok(acc)
    } else {
        match text_pieces(c, f, body, i, cols, live, acc, p - 1) {
            Err(e) => Err(e),
            Ok(before) => match text_piece(c, f, body, i, cols[p - 1] as int, live) {
                Err(e) => Err(e),
                Ok(col) => Ok(before.update(p - 1, joined(c, before[p - 1], col))),
            },
        }
    }
}

proof fn text_pieces_failed<C: ColumnCodec>(
    c: C,
    f: V4Footer,
    body: Seq<u8>,
    i: int,
    cols: Seq<usize>,
    live: Option<Seq<usize>>,
    acc: Seq<ColumnSeq>,
    j: int,
    p: int,
)
    requires
        0 <= j <= p,
        text_pieces(c, f, body, i, cols, live, acc, j) is Err,
    ensures
        text_pieces(c, f, body, i, cols, live, acc, p) == text_pieces(
            c,
            f,
            body,
            i,
            cols,
            live,
            acc,
            j,
        ),
    decreases p,
{
    if j < p {
        text_pieces_failed(c, f, body, i, cols, live, acc, j, p - 1);
    }
}

fn add_text_pieces<C: ColumnCodec>(
    c: &C,
    f: &V4Footer,
    body: &[u8],
    i: usize,
    cols: &Vec<usize>,
    live: &Option<Vec<usize>>,
    acc: &mut Vec<ColumnData>,
) -> (r: Result<(), ScanError>)
    requires
        i < f.row_groups@.len(),
        forall|p: int| 0 <= p < cols@.len() ==> #[trigger] cols@[p] < f.schema.columns@.len(),
        old(acc)@.len() == cols@.len(),
    ensures
        final(acc)@.len() == cols@.len(),
        match r {
            Err(e) => text_pieces(
                *c,
                *f,
                body@,
                i as int,
                cols@,
                places_view(*live),
                columns_view(old(acc)@),
                cols@.len() as int,
            ) == Err::<Seq<ColumnSeq>, ScanError>(e),
            Ok(_) => text_pieces(
                *c,
                *f,
                body@,
                i as int,
                cols@,
                places_view(*live),
                columns_view(old(acc)@),
                cols@.len() as int,
            ) == Ok::<Seq<ColumnSeq>, ScanError>(columns_view(final(acc)@)),
        },
{
    let ghost start = columns_view(acc@);
    let ghost lv = places_view(*live);
    let mut p: usize = 0;
    while p < cols.len()
        invariant
            p <= cols@.len(),
            i < f.row_groups@.len(),
            forall|p: int| 0 <= p < cols@.len() ==> #[trigger] cols@[p] < f.schema.columns@.len(),
            acc@.len() == cols@.len(),
            start == columns_view(old(acc)@),
            lv == places_view(*live),
            text_pieces(*c, *f, body@, i as int, cols@, lv, start, p as int) == Ok::<
                Seq<ColumnSeq>,
                ScanError,
            >(columns_view(acc@)),
        decreases cols@.len() - p,
    {
        assert(cols@[p as int] < f.schema.columns@.len());
        match get_text_piece(c, f, body, i, cols[p], live) {
            Err(e) => {
                proof {
                    text_pieces_failed(
                        *c,
                        *f,
                        body@,
                        i as int,
                        cols@,
                        lv,
                        start,
                        p + 1,
                        cols@.len() as int,
                    );
                }
                return Err(e);
            },
            Ok(piece) => {
                let ghost before = columns_view(acc@);
                let mut col: ColumnData = acc.remove(p);
                col.append(c, &piece);
                let ghost now = col@;
                acc.insert(p, col);
                proof {
                    assert(columns_view(acc@) =~= before.update(p as int, now));
                }
            },
        }
        p = p + 1;
    }
    Ok(())
}

/// What is collected: short identifiers and columns.
#[verifier::ext_equal]
pub struct FtsSeq {
    pub ids: Seq<u32>,
    pub cols: Seq<ColumnSeq>,
}

/// Whether the identifiers of a row group count up from its smallest one.
pub open spec fn counts_up(meta: RowGroupMeta, ids: u8) -> bool {
    ids == RG_IDS_IMPLICIT_CONTIGUOUS || (meta.deletion_count == 0 && meta.max_id == meta.min_id
        + meta.row_count - 1)
}

/// A collection after row group `i`; `None` where the row group is compressed, untagged or without
/// places on record.
pub open spec fn fts_group<C: ColumnCodec>(
    c: C,
    f: V4Footer,
    file: Seq<u8>,
    cols: Seq<usize>,
    i: int,
    st: FtsSeq,
) -> Result<Option<FtsSeq>, ScanError> {
    let meta = f.row_groups@[i];
    let rows = meta.row_count as int;
    let bm = bitmap_len(rows);
    if rows == 0 || meta.live() == 0 {
        Ok(Some(st))
    } else {
        match stored_group(meta, file) {
            Err(ScanError::PastEof) => Err(ScanError::PastEof),
            Err(_) => Ok(None),
            Ok(s) => if s[28] != RG_COMPRESS_NONE || s[29] < 1 || f.rcix(i, 0) is None {
                Ok(None)
            } else {
                let body = tail(s, 32);
                match window(body, id_section(rows, s[30]), bm) {
                    None => Err(ScanError::BodyTruncated),
                    Some(deleted) => {
                        let live = if meta.deletion_count > 0 {
                            Some(live_rows(deleted, rows))
                        } else {
                            None
                        };
                        let places = match live {
                            Some(v) => v,
                            None => live_rows(Seq::empty(), rows),
                        };
                        match short_ids(
                            body,
                            counts_up(meta, s[30]),
                            meta.min_id as int,
                            places,
                            st.ids,
                        ) {
                            None => Err(ScanError::LengthOverflow),
                            Some(ids) => match text_pieces(
                                c,
                                f,
                                body,
                                i,
                                cols,
                                live,
                                st.cols,
                                cols.len() as int,
                            ) {
                                Err(e) => Err(e),
                                Ok(now) => Ok(Some(FtsSeq { ids, cols: now })),
                            },
                        }
                    },
                }
            },
        }
    }
}

/// What is collected from the first `k` row groups.
pub open spec fn fts_upto<C: ColumnCodec>(
    c: C,
    f: V4Footer,
    file: Seq<u8>,
    cols: Seq<usize>,
    k: int,
) -> Result<Option<FtsSeq>, ScanError>
    decreases k,
{
    if k <= 0 {
        Ok(
            Some(
                FtsSeq {
                    ids: Seq::empty(),
                    cols: Seq::new(cols.len(), |p: int| empty_column(ColumnType::String)),
                },
            ),
        )
    } else {
        match fts_upto(c, f, file, cols, k - 1) {
            Ok(Some(st)) => fts_group(c, f, file, cols, k - 1, st),
            other => other,
        }
    }
}

proof fn fts_upto_over<C: ColumnCodec>(
    c: C,
    f: V4Footer,
    file: Seq<u8>,
    cols: Seq<usize>,
    j: int,
    k: int,
)
    requires
        0 <= j <= k,
        !(fts_upto(c, f, file, cols, j) matches Ok(Some(_))),
    ensures
        fts_upto(c, f, file, cols, k) == fts_upto(c, f, file, cols, j),
    decreases k,
{
    if j < k {
        fts_upto_over(c, f, file, cols, j, k - 1);
    }
}

fn fts_one<C: ColumnCodec>(
    c: &C,
    f: &V4Footer,
    file: &[u8],
    col_indices: &Vec<usize>,
    i: usize,
    ids: &mut Vec<u32>,
    cols: &mut Vec<ColumnData>,
) -> (r: Result<bool, ScanError>)
    requires
        i < f.row_groups@.len(),
        forall|p: int|
            0 <= p < col_indices@.len() ==> #[trigger] col_indices@[p] < f.schema.columns@.len(),
        old(cols)@.len() == col_indices@.len(),
    ensures
        final(cols)@.len() == col_indices@.len(),
        ({
            let want = fts_group(
                *c,
                *f,
                file@,
                col_indices@,
                i as int,
                FtsSeq { ids: old(ids)@, cols: columns_view(old(cols)@) },
            );
            match r {
                Err(e) => want == Err::<Option<FtsSeq>, ScanError>(e),
                Ok(false) => want == Ok::<Option<FtsSeq>, ScanError>(None),
                Ok(true) => want == Ok::<Option<FtsSeq>, ScanError>(
                    Some(FtsSeq { ids: final(ids)@, cols: columns_view(final(cols)@) }),
                ),
            }
        }),
{
    let meta: RowGroupMeta = f.row_groups[i];
    let rows: u32 = meta.row_count;
    if rows == 0 || meta.active_rows() == 0 {
        return Ok(true);
    }
    let bm: u64 = rg_bitmap_len(rows);
    let s: &[u8] = match get_stored(&meta, file) {
        Err(ScanError::PastEof) => {
            return Err(ScanError::PastEof);
        },
        Err(_) => {
            return Ok(false);
        },
        Ok(s) => s,
    };
    if s[28] != RG_COMPRESS_NONE || s[29] < 1 || f.column_offset(i, 0).is_none() {
        return Ok(false);
    }
    let body: &[u8] = get_tail(s, 32);
    let id_len: u64 = rg_id_section_len(rows, s[30]);
    let deleted: &[u8] = match get_window(body, id_len, bm) {
        None => {
            return Err(ScanError::BodyTruncated);
        },
        Some(w) => w,
    };
    let none: Vec<u8> = Vec::new();
    assert(none@ =~= Seq::empty());
    let deletes: bool = meta.deletion_count > 0;
    let places: Vec<usize> = if deletes {
        get_live_rows(deleted, rows)
    } else {
        get_live_rows(none.as_slice(), rows)
    };
    let implicit: bool = s[30] == RG_IDS_IMPLICIT_CONTIGUOUS || (!deletes && meta.max_id as u128
        + 1 == meta.min_id as u128 + rows as u128);
    proof {
        live_rows_bound(deleted@, rows as int);
        live_rows_bound(none@, rows as int);
        assert forall|k: int| 0 <= k < places@.len() && !implicit implies (#[trigger] places@[k]
            + 1) * 8 <= body.len() by {
            assert(id_len == rows * 8);
        }
    }
    if !add_short_ids(body, implicit, meta.min_id, &places, ids) {
        return Err(ScanError::LengthOverflow);
    }
    let live: Option<Vec<usize>> = if deletes {
        Some(places)
    } else {
        None
    };
    match add_text_pieces(c, f, body, i, col_indices, &live, cols) {
        Err(e) => Err(e),
        Ok(_) => Ok(true),
    }
}

/// The columns with the given names, where all of them are there and hold strings.
pub open spec fn text_columns(f: V4Footer, names: Seq<Seq<char>>) -> Option<Seq<usize>>
    decreases names.len(),
{
    if names.len() == 0 {
        Some(Seq::empty())
    } else {
        match (text_columns(f, names.drop_last()), f.schema.index_of(names.last())) {
            (Some(before), Some(i)) => if is_text(f.schema.kind(i as int)) {
                Some(before.push(i))
            } else {
                None
            },
            _ => None,
        }
    }
}

proof fn text_columns_failed(f: V4Footer, names: Seq<Seq<char>>, j: int)
    requires
        0 <= j <= names.len(),
        text_columns(f, names.take(j)) is None,
    ensures
        text_columns(f, names) is None,
    decreases names.len() - j,
{
    if j < names.len() {
        assert(names.take(j + 1).drop_last() =~= names.take(j));
        text_columns_failed(f, names, j + 1);
    } else {
        assert(names.take(j) =~= names);
    }
}

/// Names as sequences.
pub open spec fn names_view(v: Seq<String>) -> Seq<Seq<char>> {
    Seq::new(v.len(), |i: int| v[i]@)
}

fn get_text_columns(f: &V4Footer, names: &[String]) -> (r: Option<Vec<usize>>)
    ensures
        match r {
            None => text_columns(*f, names_view(names@)) is None,
            Some(v) => text_columns(*f, names_view(names@)) == Some(v@) && v@.len() == names@.len()
                && forall|p: int|
                0 <= p < v@.len() ==> #[trigger] v@[p] < f.schema.columns@.len(),
        },
{
    let ghost all = names_view(names@);
    let mut out: Vec<usize> = Vec::new();
    let mut i: usize = 0;
    assert(all.take(0) =~= Seq::empty());
    assert(out@ =~= Seq::empty());
    while i < names.len()
        invariant
            i <= names.len(),
            all == names_view(names@),
            out@.len() == i,
            text_columns(*f, all.take(i as int)) == Some(out@),
            forall|p: int| 0 <= p < out@.len() ==> #[trigger] out@[p] < f.schema.columns@.len(),
        decreases names.len() - i,
    {
        proof {
            assert(all.take(i + 1).drop_last() =~= all.take(i as int));
            assert(all.take(i + 1).last() == names@[i as int]@);
        }
        match f.schema.get_index(names[i].as_str()) {
            Some(k) if f.schema.columns[k].1.is_text() => {
                out.push(k);
            },
            _ => {
                proof {
                    text_columns_failed(*f, all, i + 1);
                }
                return None;
            },
        }
        i = i + 1;
    }
    assert(all.take(all.len() as int) =~= all);
    Some(out)
}

impl<C: ColumnCodec> OnDemandStorage<C> {
    /// What reading string columns for a text index gives. `pending` tells of rows that are not in
    /// the file yet.
    pub open spec fn fts_columns(self, names: Seq<Seq<char>>, pending: bool) -> Result<
        Option<FtsSeq>,
        ScanError,
    > {
        if names.len() == 0 || pending {
            Ok(None)
        } else {
            match self.footer {
                None => Ok(Some(FtsSeq { ids: Seq::empty(), cols: Seq::empty() })),
                Some(f) => match text_columns(f, names) {
                    None => Ok(None),
                    Some(cols) => match self.file {
                        None => Err(ScanError::NotOpen),
                        Some(file) => fts_upto(
                            self.codec,
                            f,
                            file@,
                            cols,
                            f.row_groups@.len() as int,
                        ),
                    },
                },
            }
        }
    }

    /// Reads the strings of some columns with the short identifiers of the live rows; a missing
    /// string is an empty one. The columns come in the order of the names.
    pub fn read_fts_string_columns_mmap(&self, column_names: &[String], pending: bool) -> (r: Result<
        Option<(Vec<u32>, Vec<ColumnData>)>,
        ScanError,
    >)
        ensures
            match r {
                Err(e) => self.fts_columns(names_view(column_names@), pending) == Err::<
                    Option<FtsSeq>,
                    ScanError,
                >(e),
                Ok(None) => self.fts_columns(names_view(column_names@), pending) == Ok::<
                    Option<FtsSeq>,
                    ScanError,
                >(None),
                Ok(Some((ids, cols))) => self.fts_columns(
                    names_view(column_names@),
                    pending,
                ) == Ok::<Option<FtsSeq>, ScanError>(
                    Some(FtsSeq { ids: ids@, cols: columns_view(cols@) }),
                ),
            },
    {
        if column_names.len() == 0 || pending {
            return Ok(None);
        }
        let mut ids: Vec<u32> = Vec::new();
        let mut cols: Vec<ColumnData> = Vec::new();
        assert(ids@ =~= Seq::empty());
        assert(columns_view(cols@) =~= Seq::empty());
        let f: &V4Footer = match &self.footer {
            None => {
                return Ok(Some((ids, cols)));
            },
            Some(f) => f,
        };
        let col_indices: Vec<usize> = match get_text_columns(f, column_names) {
            None => {
                return Ok(None);
            },
            Some(v) => v,
        };
        let file: &[u8] = match &self.file {
            None => {
                return Err(ScanError::NotOpen);
            },
            Some(v) => v.as_slice(),
        };
        let c: &C = &self.codec;
        let ghost n = f.row_groups@.len() as int;
        let mut p: usize = 0;
        while p < col_indices.len()
            invariant
                p <= col_indices@.len(),
                cols@.len() == p,
                forall|k: int|
                    0 <= k < p ==> (#[trigger] cols@[k])@ == empty_column(ColumnType::String),
            decreases col_indices@.len() - p,
        {
            cols.push(ColumnData::new(ColumnType::String));
            p = p + 1;
        }
        proof {
            assert(columns_view(cols@) =~= Seq::new(
                col_indices@.len(),
                |p: int| empty_column(ColumnType::String),
            ));
        }
        let mut i: usize = 0;
        while i < f.row_groups.len()
            invariant
                i <= f.row_groups@.len(),
                n == f.row_groups@.len(),
                column_names@.len() > 0,
                !pending,
                self.footer == Some(*f),
                self.file matches Some(v) && v@ == file@,
                *c == self.codec,
                text_columns(*f, names_view(column_names@)) == Some(col_indices@),
                forall|p: int|
                    0 <= p < col_indices@.len() ==> #[trigger] col_indices@[p]
                        < f.schema.columns@.len(),
                cols@.len() == col_indices@.len(),
                fts_upto(*c, *f, file@, col_indices@, i as int) == Ok::<
                    Option<FtsSeq>,
                    ScanError,
                >(Some(FtsSeq { ids: ids@, cols: columns_view(cols@) })),
            decreases f.row_groups@.len() - i,
        {
            match fts_one(c, f, file, &col_indices, i, &mut ids, &mut cols) {
                Err(e) => {
                    proof {
                        fts_upto_over(*c, *f, file@, col_indices@, i + 1, n);
                    }
                    return Err(e);
                },
                Ok(false) => {
                    proof {
                        fts_upto_over(*c, *f, file@, col_indices@, i + 1, n);
                    }
                    return Ok(None);
                },
                Ok(true) => {},
            }
            i = i + 1;
        }
        Ok(Some((ids, cols)))
    }
}

} // verus!
