//! Reading whole columns of all row groups.

use vstd::prelude::*;
use vstd::slice::{slice_subrange, slice_to_vec};

use crate::bytes::{bit, bitmap_len};
use crate::codec::ColumnCodec;
use crate::column::{ColumnData, ColumnSeq};
use crate::column_ops::{
    add_bit, add_bytes, create_default_column, default_column, empty_column, joined, spelled,
    with_bit,
};
use crate::group::{
    get_tail, get_window, group_of, id_section, open_group, rg_bitmap_len, rg_id_section_len, tail,
    window, Group,
};
use crate::model::{
    ColumnType, OnDemandSchema, RowGroupMeta, ScanError, V4Footer, RG_COMPRESS_NONE,
};
use crate::storage::OnDemandStorage;

verus! {

/// A column that a walk over a body came by: its null bitmap, and its values where they are wanted.
#[verifier::ext_equal]
pub struct FoundSeq {
    pub nulls: Seq<u8>,
    pub data: Option<ColumnSeq>,
}

/// A column that a walk over a body came by.
pub struct Found<'a> {
    pub nulls: &'a [u8],
    pub data: Option<ColumnData>,
}

/// Optional values as sequences.
pub open spec fn data_view(d: Option<ColumnData>) -> Option<ColumnSeq> {
    match d {
        None => None,
        Some(c) => Some(c@),
    }
}

impl<'a> View for Found<'a> {
    type V = FoundSeq;

    open spec fn view(&self) -> FoundSeq {
        FoundSeq { nulls: self.nulls@, data: data_view(self.data) }
    }
}

/// Found columns as sequences.
pub open spec fn found_view(v: Seq<Found>) -> Seq<FoundSeq> {
    Seq::new(v.len(), |i: int| v[i]@)
}

/// A column at the start of `bytes`: its first rows where only they are asked for.
pub open spec fn column_read<C: ColumnCodec>(
    c: C,
    tagged: bool,
    bytes: Seq<u8>,
    kind: ColumnType,
    first: Option<nat>,
) -> Option<(ColumnSeq, nat)> {
    match first {
        None => c.decoded(tagged, bytes, kind),
        Some(n) => c.decoded_first(bytes, kind, n),
    }
}

/// A count, where there is one.
pub open spec fn first_view(first: Option<usize>) -> Option<nat> {
    match first {
        None => None,
        Some(n) => Some(n as nat),
    }
}

pub(crate) fn read_one<C: ColumnCodec>(
    c: &C,
    tagged: bool,
    bytes: &[u8],
    kind: ColumnType,
    first: Option<usize>,
) -> (r: Option<(ColumnData, usize)>)
    ensures
        match r {
            None => column_read(*c, tagged, bytes@, kind, first_view(first)) is None,
            Some((col, n)) => column_read(*c, tagged, bytes@, kind, first_view(first)) == Some(
                (col@, n as nat),
            ),
        },
{
    match first {
        None => c.read_column(tagged, bytes, kind),
        Some(n) => c.read_column_partial(bytes, kind, n),
    }
}

/// `acc` with the columns from `col` on that a walk over a body from position `pos` comes by. It
/// ends where a null bitmap does not fit.
pub open spec fn found_from<C: ColumnCodec>(
    c: C,
    schema: OnDemandSchema,
    tagged: bool,
    body: Seq<u8>,
    bm: int,
    wanted: Seq<bool>,
    first: Option<nat>,
    acc: Seq<FoundSeq>,
    col: int,
    pos: int,
) -> Result<Seq<FoundSeq>, ScanError>
    decreases schema.columns@.len() - col,
{
    if col >= schema.columns@.len() || pos + bm > body.len() {
        Ok(acc)
    } else {
        let nulls = body.subrange(pos, pos + bm);
        let bytes = tail(body, pos + bm);
        let kind = schema.kind(col);
        if wanted[col] {
            match column_read(c, tagged, bytes, kind, first) {
                None => Err(ScanError::Codec),
                Some((v, n)) => found_from(
                    c,
                    schema,
                    tagged,
                    body,
                    bm,
                    wanted,
                    first,
                    acc.push(FoundSeq { nulls, data: Some(v) }),
                    col + 1,
                    pos + bm + n,
                ),
            }
        } else {
            match c.extent(tagged, bytes, kind) {
                None => Err(ScanError::Codec),
                Some(n) => found_from(
                    c,
                    schema,
                    tagged,
                    body,
                    bm,
                    wanted,
                    first,
                    acc.push(FoundSeq { nulls, data: None }),
                    col + 1,
                    pos + bm + n,
                ),
            }
        }
    }
}

/// Walks over the columns of a body.
pub(crate) fn find_columns<'a, C: ColumnCodec>(
    c: &C,
    schema: &OnDemandSchema,
    tagged: bool,
    body: &'a [u8],
    bm: u64,
    wanted: &Vec<bool>,
    first: Option<usize>,
    start: u64,
) -> (r: Result<Vec<Found<'a>>, ScanError>)
    requires
        wanted@.len() == schema.columns@.len(),
    ensures
        match r {
            Err(e) => found_from(
                *c,
                *schema,
                tagged,
                body@,
                bm as int,
                wanted@,
                first_view(first),
                Seq::empty(),
                0,
                start as int,
            ) == Err::<Seq<FoundSeq>, ScanError>(e),
            Ok(v) => found_from(
                *c,
                *schema,
                tagged,
                body@,
                bm as int,
                wanted@,
                first_view(first),
                Seq::empty(),
                0,
                start as int,
            ) == Ok::<Seq<FoundSeq>, ScanError>(found_view(v@)),
        },
{
    let ghost want = found_from(
        *c,
        *schema,
        tagged,
        body@,
        bm as int,
        wanted@,
        first_view(first),
        Seq::empty(),
        0,
        start as int,
    );
    let mut out: Vec<Found<'a>> = Vec::new();
    let mut col: usize = 0;
    let mut pos: u64 = start;
    assert(found_view(out@) =~= Seq::empty());
    while col < schema.columns.len()
        invariant
            col <= schema.columns@.len(),
            wanted@.len() == schema.columns@.len(),
            want == found_from(
                *c,
                *schema,
                tagged,
                body@,
                bm as int,
                wanted@,
                first_view(first),
                Seq::empty(),
                0,
                start as int,
            ),
            want == found_from(
                *c,
                *schema,
                tagged,
                body@,
                bm as int,
                wanted@,
                first_view(first),
                found_view(out@),
                col as int,
                pos as int,
            ),
        decreases schema.columns@.len() - col,
    {
        if pos as u128 + bm as u128 > body.len() as u128 {
            return Ok(out);
        }
        let at: usize = (pos + bm) as usize;
        let nulls: &'a [u8] = slice_subrange(body, pos as usize, at);
        let bytes: &'a [u8] = get_tail(body, at);
        let kind: ColumnType = schema.columns[col].1;
        let ghost before = found_view(out@);
        let n: usize = if wanted[col] {
            match read_one(c, tagged, bytes, kind, first) {
                None => {
                    return Err(ScanError::Codec);
                },
                Some((v, n)) => {
                    let ghost seen = FoundSeq { nulls: nulls@, data: Some(v@) };
                    out.push(Found { nulls, data: Some(v) });
                    assert(found_view(out@) =~= before.push(seen));
                    n
                },
            }
        } else {
            match c.skip_column(tagged, bytes, kind) {
                None => {
                    return Err(ScanError::Codec);
                },
                Some(n) => {
                    let ghost seen = FoundSeq { nulls: nulls@, data: None };
                    out.push(Found { nulls, data: None });
                    assert(found_view(out@) =~= before.push(seen));
                    n
                },
            }
        };
        if n > body.len() - at {
            assert(found_from(
                *c,
                *schema,
                tagged,
                body@,
                bm as int,
                wanted@,
                first_view(first),
                found_view(out@),
                col + 1,
                at + n,
            ) == Ok::<Seq<FoundSeq>, ScanError>(found_view(out@)));
            return Ok(out);
        }
        pos = (at + n) as u64;
        col = col + 1;
    }
    Ok(out)
}

/// Whether place `p` is the last one of its column.
pub open spec fn is_last(cols: Seq<usize>, p: int) -> bool {
    forall|k: int| p < k < cols.len() ==> cols[k] != cols[p]
}

/// Tests whether place `p` is the last one of its column.
pub(crate) fn test_last(cols: &[usize], p: usize) -> (r: bool)
    requires
        p < cols.len(),
    ensures
        r == is_last(cols@, p as int),
{
    let mut k: usize = p + 1;
    while k < cols.len()
        invariant
            p < k <= cols.len(),
            forall|j: int| p < j < k ==> cols@[j] != cols@[p as int],
        decreases cols.len() - k,
    {
        if cols[k] == cols[p] {
            return false;
        }
        k = k + 1;
    }
    true
}

/// Which columns are asked for.
pub open spec fn wanted_of(cols: Seq<usize>, count: int) -> Seq<bool> {
    Seq::new(count as nat, |i: int| cols.contains(i as usize))
}

/// Marks the columns that are asked for.
pub(crate) fn get_wanted(cols: &[usize], count: usize) -> (r: Vec<bool>)
    ensures
        r@ == wanted_of(cols@, count as int),
{
    let mut out: Vec<bool> = Vec::new();
    let mut i: usize = 0;
    while i < count
        invariant
            i <= count,
            out@ =~= wanted_of(cols@, count as int).take(i as int),
        decreases count - i,
    {
        let mut hit: bool = false;
        let mut k: usize = 0;
        while k < cols.len()
            invariant
                k <= cols.len(),
                hit == exists|j: int| 0 <= j < k && #[trigger] cols@[j] == i,
            decreases cols.len() - k,
        {
            if cols[k] == i {
                assert(cols@[k as int] == i);
                hit = true;
            }
            k = k + 1;
        }
        assert(hit == cols@.contains(i));
        out.push(hit);
        i = i + 1;
    }
    assert(wanted_of(cols@, count as int).take(count as int) =~= wanted_of(cols@, count as int));
    out
}

/// What is collected: the columns, the deletion bitmaps and the null bitmaps of the columns.
#[verifier::ext_equal]
pub struct ScanSeq {
    pub cols: Seq<ColumnSeq>,
    pub deleted: Seq<u8>,
    pub nulls: Seq<Seq<u8>>,
}

/// What is collected.
#[derive(Debug, PartialEq, Eq)]
pub struct Scanned {
    pub cols: Vec<ColumnData>,
    pub deleted: Vec<u8>,
    pub nulls: Vec<Vec<u8>>,
}

/// Columns as sequences.
pub open spec fn columns_view(v: Seq<ColumnData>) -> Seq<ColumnSeq> {
    Seq::new(v.len(), |i: int| v[i]@)
}

/// Bitmaps as sequences.
pub open spec fn bitmaps_view(v: Seq<Vec<u8>>) -> Seq<Seq<u8>> {
    Seq::new(v.len(), |i: int| v[i]@)
}

impl View for Scanned {
    type V = ScanSeq;

    open spec fn view(&self) -> ScanSeq {
        ScanSeq {
            cols: columns_view(self.cols@),
            deleted: self.deleted@,
            nulls: bitmaps_view(self.nulls@),
        }
    }
}

/// The type under which a column is collected: strings for a dictionary.
pub open spec fn collected_kind(kind: ColumnType) -> ColumnType {
    if kind is StringDict {
        ColumnType::String
    } else {
        kind
    }
}

/// Nothing collected yet.
pub open spec fn scan_start(schema: OnDemandSchema, cols: Seq<usize>) -> ScanSeq {
    ScanSeq {
        cols: Seq::new(
            cols.len(),
            |p: int| empty_column(collected_kind(schema.kind(cols[p] as int))),
        ),
        deleted: Seq::empty(),
        nulls: Seq::new(cols.len(), |p: int| Seq::empty()),
    }
}

/// Starts a collection of columns.
pub(crate) fn start_columns(schema: &OnDemandSchema, cols: &[usize]) -> (r: Vec<ColumnData>)
    requires
        forall|p: int| 0 <= p < cols@.len() ==> #[trigger] cols@[p] < schema.columns@.len(),
    ensures
        columns_view(r@) == scan_start(*schema, cols@).cols,
{
    let mut out: Vec<ColumnData> = Vec::with_capacity(cols.len());
    let mut p: usize = 0;
    while p < cols.len()
        invariant
            p <= cols.len(),
            forall|p: int| 0 <= p < cols@.len() ==> #[trigger] cols@[p] < schema.columns@.len(),
            out@.len() == p,
            forall|k: int|
                0 <= k < p ==> (#[trigger] out@[k])@ == empty_column(
                    collected_kind(schema.kind(cols@[k] as int)),
                ),
        decreases cols.len() - p,
    {
        assert(cols@[p as int] < schema.columns@.len());
        let kind: ColumnType = schema.columns[cols[p]].1;
        let own: ColumnType = if matches!(kind, ColumnType::StringDict) {
            ColumnType::String
        } else {
            kind
        };
        out.push(ColumnData::new(own));
        p = p + 1;
    }
    assert(columns_view(out@) =~= scan_start(*schema, cols@).cols);
    out
}

/// A bitmap whose first `n` bits are set.
pub open spec fn full_bits(n: int) -> Seq<u8>
    decreases n,
{
    if n <= 0 {
        Seq::empty()
    } else {
        with_bit(full_bits(n - 1), n - 1, true)
    }
}

fn get_full_bits(n: u32) -> (r: Vec<u8>)
    ensures
        r@ == full_bits(n as int),
{
    let mut out: Vec<u8> = Vec::new();
    let mut i: u32 = 0;
    assert(out@ =~= Seq::empty());
    while i < n
        invariant
            i <= n,
            out@ == full_bits(i as int),
        decreases n - i,
    {
        add_bit(&mut out, i as usize, true);
        i = i + 1;
    }
    out
}

/// What a row group adds to one column: its values and its null bitmap, `None` where it has none.
pub struct PieceSeq {
    pub data: ColumnSeq,
    pub nulls: Seq<u8>,
}

/// What a row group adds to one column.
pub struct Piece {
    pub data: ColumnData,
    pub nulls: Vec<u8>,
}

/// Pieces as sequences.
pub open spec fn piece_view(p: Option<Piece>) -> Option<PieceSeq> {
    match p {
        None => None,
        Some(x) => Some(PieceSeq { data: x.data@, nulls: x.nulls@ }),
    }
}

/// One column of a collection with a piece added. Missing values stand in for a missing piece.
pub open spec fn fed<C: ColumnCodec>(
    c: C,
    kind: ColumnType,
    rows: int,
    col: ColumnSeq,
    nulls: Seq<u8>,
    piece: Option<PieceSeq>,
) -> (ColumnSeq, Seq<u8>) {
    match piece {
        Some(p) => (joined(c, col, spelled(c, p.data)), nulls + p.nulls),
        None => (joined(c, col, default_column(c, kind, rows)), nulls + full_bits(rows)),
    }
}

/// A collection with a piece added to each column.
pub open spec fn fed_all<C: ColumnCodec>(
    c: C,
    schema: OnDemandSchema,
    cols: Seq<usize>,
    rows: int,
    st: ScanSeq,
    pieces: Seq<Option<PieceSeq>>,
) -> ScanSeq {
    ScanSeq {
        cols: Seq::new(
            cols.len(),
            |p: int|
                fed(
                    c,
                    schema.kind(cols[p] as int),
                    rows,
                    st.cols[p],
                    st.nulls[p],
                    pieces[p],
                ).0,
        ),
        deleted: st.deleted,
        nulls: Seq::new(
            cols.len(),
            |p: int|
                fed(
                    c,
                    schema.kind(cols[p] as int),
                    rows,
                    st.cols[p],
                    st.nulls[p],
                    pieces[p],
                ).1,
        ),
    }
}

/// The piece of column `col` in a body, from its place on record.
pub open spec fn placed_piece<C: ColumnCodec>(
    c: C,
    f: V4Footer,
    body: Seq<u8>,
    i: int,
    col: int,
) -> Result<Option<PieceSeq>, ScanError> {
    let bm = bitmap_len(f.row_groups@[i].row_count as int);
    match f.rcix(i, col) {
        None => Ok(None),
        Some(o) => if o + bm > body.len() {
            Ok(None)
        } else {
            match c.decoded(true, tail(body, o + bm), f.schema.kind(col)) {
                None => Err(ScanError::Codec),
                Some((v, _)) => Ok(Some(PieceSeq { data: v, nulls: body.subrange(o, o + bm) })),
            }
        },
    }
}

/// The pieces of the first `p` columns that are asked for, from their places on record. Of a column
/// that is asked for more than once only the last place gets one.
pub open spec fn placed_pieces<C: ColumnCodec>(
    c: C,
    f: V4Footer,
    body: Seq<u8>,
    i: int,
    cols: Seq<usize>,
    p: int,
) -> Result<Seq<Option<PieceSeq>>, ScanError>
    decreases p,
{
    if p <= 0 {
        Ok(Seq::empty())
    } else {
        match placed_pieces(c, f, body, i, cols, p - 1) {
            Err(e) => Err(e),
            Ok(before) => if !is_last(cols, p - 1) {
                Ok(before.push(None))
            } else {
                match placed_piece(c, f, body, i, cols[p - 1] as int) {
                    Err(e) => Err(e),
                    Ok(x) => Ok(before.push(x)),
                }
            },
        }
    }
}

proof fn placed_pieces_failed<C: ColumnCodec>(
    c: C,
    f: V4Footer,
    body: Seq<u8>,
    i: int,
    cols: Seq<usize>,
    j: int,
    p: int,
)
    requires
        0 <= j <= p,
        placed_pieces(c, f, body, i, cols, j) is Err,
    ensures
        placed_pieces(c, f, body, i, cols, p) == placed_pieces(c, f, body, i, cols, j),
    decreases p,
{
    if j < p {
        placed_pieces_failed(c, f, body, i, cols, j, p - 1);
    }
}

/// Pieces as sequences.
pub open spec fn pieces_view(v: Seq<Option<Piece>>) -> Seq<Option<PieceSeq>> {
    Seq::new(v.len(), |i: int| piece_view(v[i]))
}

fn get_placed_pieces<C: ColumnCodec>(
    c: &C,
    f: &V4Footer,
    body: &[u8],
    i: usize,
    cols: &[usize],
) -> (r: Result<Vec<Option<Piece>>, ScanError>)
    requires
        i < f.row_groups@.len(),
        forall|p: int| 0 <= p < cols@.len() ==> #[trigger] cols@[p] < f.schema.columns@.len(),
    ensures
        match r {
            Err(e) => placed_pieces(
                *c,
                *f,
                body@,
                i as int,
                cols@,
                cols@.len() as int,
            ) == Err::<Seq<Option<PieceSeq>>, ScanError>(e),
            Ok(v) => placed_pieces(
                *c,
                *f,
                body@,
                i as int,
                cols@,
                cols@.len() as int,
            ) == Ok::<Seq<Option<PieceSeq>>, ScanError>(pieces_view(v@)) && v@.len()
                == cols@.len(),
        },
{
    let bm: u64 = rg_bitmap_len(f.row_groups[i].row_count);
    let mut out: Vec<Option<Piece>> = Vec::new();
    let mut p: usize = 0;
    assert(pieces_view(out@) =~= Seq::empty());
    while p < cols.len()
        invariant
            p <= cols.len(),
            out@.len() == p,
            bm == bitmap_len(f.row_groups@[i as int].row_count as int),
            forall|p: int| 0 <= p < cols@.len() ==> #[trigger] cols@[p] < f.schema.columns@.len(),
            placed_pieces(*c, *f, body@, i as int, cols@, p as int) == Ok::<
                Seq<Option<PieceSeq>>,
                ScanError,
            >(pieces_view(out@)),
        decreases cols.len() - p,
    {
        let ghost before = pieces_view(out@);
        let col: usize = cols[p];
        assert(cols@[p as int] < f.schema.columns@.len());
        let mut piece: Option<Piece> = None;
        if test_last(cols, p) {
            if let Some(o) = f.column_offset(i, col) {
                if let Some(nulls) = get_window(body, o as u64, bm) {
                    match c.read_column(
                        true,
                        get_tail(body, (o as u64 + bm) as usize),
                        f.schema.columns[col].1,
                    ) {
                        None => {
                            proof {
                                placed_pieces_failed(
                                    *c,
                                    *f,
                                    body@,
                                    i as int,
                                    cols@,
                                    p + 1,
                                    cols@.len() as int,
                                );
                            }
                            return Err(ScanError::Codec);
                        },
                        Some((v, _)) => {
                            piece = Some(Piece { data: v, nulls: slice_to_vec(nulls) });
                        },
                    }
                }
            }
        }
        let ghost seen = piece_view(piece);
        out.push(piece);
        assert(pieces_view(out@) =~= before.push(seen));
        p = p + 1;
    }
    Ok(out)
}

/// The piece for place `p` among the columns that a walk came by.
pub open spec fn walked_piece(found: Seq<FoundSeq>, cols: Seq<usize>, p: int) -> Option<PieceSeq> {
    if is_last(cols, p) && cols[p] < found.len() {
        match found[cols[p] as int].data {
            None => None,
            Some(v) => Some(PieceSeq { data: v, nulls: found[cols[p] as int].nulls }),
        }
    } else {
        None
    }
}

/// The pieces among the columns that a walk came by.
pub open spec fn walked_pieces(found: Seq<FoundSeq>, cols: Seq<usize>) -> Seq<Option<PieceSeq>> {
    Seq::new(cols.len(), |p: int| walked_piece(found, cols, p))
}

/// Takes the pieces out of the columns that a walk came by.
pub(crate) fn take_pieces(found: Vec<Found>, cols: &[usize]) -> (r: Vec<Option<Piece>>)
    ensures
        pieces_view(r@) == walked_pieces(found_view(found@), cols@),
        r@.len() == cols@.len(),
{
    let mut found: Vec<Found> = found;
    let ghost all = found_view(found@);
    let mut out: Vec<Option<Piece>> = Vec::new();
    let mut p: usize = 0;
    while p < cols.len()
        invariant
            p <= cols.len(),
            out@.len() == p,
            found@.len() == all.len(),
            forall|k: int|
                0 <= k < p ==> piece_view(#[trigger] out@[k]) == walked_piece(all, cols@, k),
            forall|k: int|
                0 <= k < all.len() && !(exists|q: int|
                    0 <= q < p && cols@[q] == k && #[trigger] is_last(cols@, q)) ==> (
                #[trigger] found@[k])@ == all[k],
        decreases cols.len() - p,
    {
        let col: usize = cols[p];
        let mut piece: Option<Piece> = None;
        let ghost before = found@;
        if test_last(cols, p) {
            if col < found.len() {
                assert(!(exists|q: int|
                    0 <= q < p && cols@[q] == col && #[trigger] is_last(cols@, q)));
                assert(found@[col as int]@ == all[col as int]);
                let old: Found = found.remove(col);
                let nulls: Vec<u8> = slice_to_vec(old.nulls);
                let blank: Found = Found { nulls: old.nulls, data: None };
                found.insert(col, blank);
                proof {
                    assert(found@ =~= before.update(col as int, blank));
                }
                if let Some(v) = old.data {
                    piece = Some(Piece { data: v, nulls });
                }
            }
        }
        assert(piece_view(piece) == walked_piece(all, cols@, p as int));
        out.push(piece);
        proof {
            assert forall|k: int|
                0 <= k < all.len() && !(exists|q: int|
                    0 <= q < p + 1 && cols@[q] == k && #[trigger] is_last(cols@, q)) implies (
            #[trigger] found@[k])@ == all[k] by {
                if exists|q: int| 0 <= q < p && cols@[q] == k && #[trigger] is_last(cols@, q) {
                    let q = choose|q: int|
                        0 <= q < p && cols@[q] == k && #[trigger] is_last(cols@, q);
                    assert(0 <= q < p + 1);
                }
                if k == col && is_last(cols@, p as int) {
                    assert(cols@[p as int] == k);
                }
                assert(before[k]@ == all[k]);
            }
        }
        p = p + 1;
    }
    assert(pieces_view(out@) =~= walked_pieces(all, cols@));
    out
}

impl<C: ColumnCodec> OnDemandStorage<C> {
    /// Adds rows that hold nothing, all of them missing, to the columns that a row group did not
    /// fill.
    fn pad_missing_rg_columns(
        c: &C,
        schema: &OnDemandSchema,
        col_indices: &[usize],
        rg_filled: &Vec<bool>,
        rg_rows: u32,
        col_accumulators: &mut Vec<ColumnData>,
        col_null_bitmaps: &mut Vec<Vec<u8>>,
    )
        requires
            forall|p: int|
                0 <= p < col_indices@.len() ==> #[trigger] col_indices@[p]
                    < schema.columns@.len(),
            rg_filled@.len() == col_indices@.len(),
            old(col_accumulators)@.len() == col_indices@.len(),
            old(col_null_bitmaps)@.len() == col_indices@.len(),
        ensures
            final(col_accumulators)@.len() == col_indices@.len(),
            final(col_null_bitmaps)@.len() == col_indices@.len(),
            forall|p: int|
                0 <= p < col_indices@.len() && rg_filled@[p] ==> (
                #[trigger] final(col_accumulators)@[p]) == old(col_accumulators)@[p],
            forall|p: int|
                0 <= p < col_indices@.len() && rg_filled@[p] ==> (
                #[trigger] final(col_null_bitmaps)@[p]) == old(col_null_bitmaps)@[p],
            forall|p: int|
                0 <= p < col_indices@.len() && !rg_filled@[p] ==> (
                #[trigger] final(col_accumulators)@[p])@ == joined(
                    *c,
                    old(col_accumulators)@[p]@,
                    default_column(*c, schema.kind(col_indices@[p] as int), rg_rows as int),
                ),
            forall|p: int|
                0 <= p < col_indices@.len() && !rg_filled@[p] ==> (
                #[trigger] final(col_null_bitmaps)@[p])@ == old(col_null_bitmaps)@[p]@
                    + full_bits(rg_rows as int),
    {
        let ghost cols0 = col_accumulators@;
        let ghost nulls0 = col_null_bitmaps@;
        let mut p: usize = 0;
        while p < col_indices.len()
            invariant
                p <= col_indices.len(),
                forall|p: int|
                    0 <= p < col_indices@.len() ==> #[trigger] col_indices@[p]
                        < schema.columns@.len(),
                rg_filled@.len() == col_indices@.len(),
                cols0.len() == col_indices@.len(),
                nulls0.len() == col_indices@.len(),
                col_accumulators@.len() == col_indices@.len(),
                col_null_bitmaps@.len() == col_indices@.len(),
                forall|k: int|
                    0 <= k < col_indices@.len() && (rg_filled@[k] || k >= p) ==> (
                    #[trigger] col_accumulators@[k]) == cols0[k],
                forall|k: int|
                    0 <= k < col_indices@.len() && (rg_filled@[k] || k >= p) ==> (
                    #[trigger] col_null_bitmaps@[k]) == nulls0[k],
                forall|k: int|
                    0 <= k < p && !rg_filled@[k] ==> (#[trigger] col_accumulators@[k])@ == joined(
                        *c,
                        cols0[k]@,
                        default_column(*c, schema.kind(col_indices@[k] as int), rg_rows as int),
                    ),
                forall|k: int|
                    0 <= k < p && !rg_filled@[k] ==> (#[trigger] col_null_bitmaps@[k])@
                        == nulls0[k]@ + full_bits(rg_rows as int),
            decreases col_indices.len() - p,
        {
            if !rg_filled[p] {
                assert(col_indices@[p as int] < schema.columns@.len());
                let kind: ColumnType = schema.columns[col_indices[p]].1;
                let blank: ColumnData = create_default_column(c, kind, rg_rows as usize);
                let ghost prior_cols = col_accumulators@;
                let ghost prior_nulls = col_null_bitmaps@;
                let mut col: ColumnData = col_accumulators.remove(p);
                col.append(c, &blank);
                let ghost new_col = col;
                col_accumulators.insert(p, col);
                let mut nulls: Vec<u8> = col_null_bitmaps.remove(p);
                let pad: Vec<u8> = get_full_bits(rg_rows);
                add_bytes(&mut nulls, pad.as_slice());
                let ghost new_nulls = nulls;
                col_null_bitmaps.insert(p, nulls);
                proof {
                    assert(col_accumulators@ =~= prior_cols.update(p as int, new_col));
                    assert(col_null_bitmaps@ =~= prior_nulls.update(p as int, new_nulls));
                }
            }
            p = p + 1;
        }
    }
}

/// A collection after row group `i`. Where its columns have places on record and it is neither
/// compressed nor untagged, they are read there; else they are walked over.
pub open spec fn scan_group<C: ColumnCodec>(
    c: C,
    f: V4Footer,
    file: Seq<u8>,
    cols: Seq<usize>,
    i: int,
    st: ScanSeq,
) -> Result<ScanSeq, ScanError> {
    let meta = f.row_groups@[i];
    let rows = meta.row_count as int;
    let bm = bitmap_len(rows);
    if rows == 0 {
        Ok(st)
    } else {
        match group_of(c, meta, file) {
            Err(e) => Err(e),
            Ok(g) => {
                let deleted = window(g.body, id_section(rows, g.ids), bm);
                if g.flag == RG_COMPRESS_NONE && g.version >= 1 && f.rcix(i, 0) is Some {
                    let now = ScanSeq {
                        deleted: match deleted {
                            None => st.deleted,
                            Some(d) => st.deleted + d,
                        },
                        ..st
                    };
                    match placed_pieces(c, f, g.body, i, cols, cols.len() as int) {
                        Err(e) => Err(e),
                        Ok(pieces) => Ok(fed_all(c, f.schema, cols, rows, now, pieces)),
                    }
                } else {
                    match deleted {
                        None => Err(ScanError::DeletionsTruncated),
                        Some(d) => {
                            let now = ScanSeq { deleted: st.deleted + d, ..st };
                            match found_from(
                                c,
                                f.schema,
                                g.version >= 1,
                                g.body,
                                bm,
                                wanted_of(cols, f.schema.columns@.len() as int),
                                None,
                                Seq::empty(),
                                0,
                                id_section(rows, g.ids) + bm,
                            ) {
                                Err(e) => Err(e),
                                Ok(found) => Ok(
                                    fed_all(
                                        c,
                                        f.schema,
                                        cols,
                                        rows,
                                        now,
                                        walked_pieces(found, cols),
                                    ),
                                ),
                            }
                        },
                    }
                }
            },
        }
    }
}

/// What is collected from the first `k` row groups.
pub open spec fn scan_upto<C: ColumnCodec>(
    c: C,
    f: V4Footer,
    file: Seq<u8>,
    cols: Seq<usize>,
    k: int,
) -> Result<ScanSeq, ScanError>
    decreases k,
{
    if k <= 0 {
        Ok(scan_start(f.schema, cols))
    } else {
        match scan_upto(c, f, file, cols, k - 1) {
            Err(e) => Err(e),
            Ok(st) => scan_group(c, f, file, cols, k - 1, st),
        }
    }
}

proof fn scan_upto_failed<C: ColumnCodec>(
    c: C,
    f: V4Footer,
    file: Seq<u8>,
    cols: Seq<usize>,
    j: int,
    k: int,
)
    requires
        0 <= j <= k,
        scan_upto(c, f, file, cols, j) is Err,
    ensures
        scan_upto(c, f, file, cols, k) == scan_upto(c, f, file, cols, j),
    decreases k,
{
    if j < k {
        scan_upto_failed(c, f, file, cols, j, k - 1);
    }
}

/// Whether the columns that are asked for are there.
pub open spec fn columns_there(schema: OnDemandSchema, cols: Seq<usize>) -> bool {
    forall|p: int| 0 <= p < cols.len() ==> #[trigger] cols[p] < schema.columns@.len()
}

/// Adds a piece to each column.
fn feed_all<C: ColumnCodec>(
    c: &C,
    schema: &OnDemandSchema,
    cols: &[usize],
    rows: u32,
    st: &mut Scanned,
    pieces: Vec<Option<Piece>>,
)
    requires
        columns_there(*schema, cols@),
        old(st).cols@.len() == cols@.len(),
        old(st).nulls@.len() == cols@.len(),
        pieces@.len() == cols@.len(),
    ensures
        final(st)@ == fed_all(
            *c,
            *schema,
            cols@,
            rows as int,
            old(st)@,
            pieces_view(pieces@),
        ),
        final(st).cols@.len() == cols@.len(),
        final(st).nulls@.len() == cols@.len(),
{
    let ghost ps = pieces_view(pieces@);
    let ghost st0 = st@;
    let mut pieces: Vec<Option<Piece>> = pieces;
    let mut filled: Vec<bool> = Vec::new();
    let mut p: usize = 0;
    while p < cols.len()
        invariant
            p <= cols.len(),
            columns_there(*schema, cols@),
            ps.len() == cols@.len(),
            st0.cols.len() == cols@.len(),
            st0.nulls.len() == cols@.len(),
            st.cols@.len() == cols@.len(),
            st.nulls@.len() == cols@.len(),
            st.deleted@ == st0.deleted,
            pieces@.len() == cols@.len() - p,
            forall|k: int|
                0 <= k < pieces@.len() ==> piece_view(#[trigger] pieces@[k]) == ps[k + p],
            filled@.len() == p,
            forall|k: int| 0 <= k < p ==> #[trigger] filled@[k] == (ps[k] is Some),
            forall|k: int|
                0 <= k < cols@.len() && (k >= p || ps[k] is None) ==> (#[trigger] st.cols@[k])@
                    == st0.cols[k],
            forall|k: int|
                0 <= k < cols@.len() && (k >= p || ps[k] is None) ==> (#[trigger] st.nulls@[k])@
                    == st0.nulls[k],
            forall|k: int|
                0 <= k < p && ps[k] is Some ==> (#[trigger] st.cols@[k])@ == fed(
                    *c,
                    schema.kind(cols@[k] as int),
                    rows as int,
                    st0.cols[k],
                    st0.nulls[k],
                    ps[k],
                ).0,
            forall|k: int|
                0 <= k < p && ps[k] is Some ==> (#[trigger] st.nulls@[k])@ == fed(
                    *c,
                    schema.kind(cols@[k] as int),
                    rows as int,
                    st0.cols[k],
                    st0.nulls[k],
                    ps[k],
                ).1,
        decreases cols.len() - p,
    {
        let ghost prior = pieces@;
        assert(piece_view(pieces@[0]) == ps[p as int]);
        let piece: Option<Piece> = pieces.remove(0);
        assert forall|k: int| 0 <= k < pieces@.len() implies piece_view(#[trigger] pieces@[k])
            == ps[k + p + 1] by {
            assert(pieces@[k] == prior[k + 1]);
        }
        match piece {
            None => {
                filled.push(false);
            },
            Some(x) => {
                let ghost prior_cols = st.cols@;
                let ghost prior_nulls = st.nulls@;
                let mut col: ColumnData = st.cols.remove(p);
                let own: ColumnData = x.data.decode_string_dict(c);
                col.append(c, &own);
                let ghost new_col = col;
                st.cols.insert(p, col);
                let mut nulls: Vec<u8> = st.nulls.remove(p);
                add_bytes(&mut nulls, x.nulls.as_slice());
                let ghost new_nulls = nulls;
                st.nulls.insert(p, nulls);
                filled.push(true);
                proof {
                    assert(st.cols@ =~= prior_cols.update(p as int, new_col));
                    assert(st.nulls@ =~= prior_nulls.update(p as int, new_nulls));
                    assert(prior_cols[p as int]@ == st0.cols[p as int]);
                    assert(prior_nulls[p as int]@ == st0.nulls[p as int]);
                }
            },
        }
        p = p + 1;
    }
    OnDemandStorage::<C>::pad_missing_rg_columns(
        c,
        schema,
        cols,
        &filled,
        rows,
        &mut st.cols,
        &mut st.nulls,
    );
    assert(st@ =~= fed_all(*c, *schema, cols@, rows as int, st0, ps));
}

/// Whether a step gave `want`, with what it collected in `st`.
pub open spec fn scanned(
    r: Result<(), ScanError>,
    st: ScanSeq,
    want: Result<ScanSeq, ScanError>,
) -> bool {
    match r {
        Err(e) => want == Err::<ScanSeq, ScanError>(e),
        Ok(_) => want == Ok::<ScanSeq, ScanError>(st),
    }
}

pub(crate) fn scan_one<C: ColumnCodec>(
    c: &C,
    f: &V4Footer,
    file: &[u8],
    cols: &[usize],
    i: usize,
    st: &mut Scanned,
) -> (r: Result<(), ScanError>)
    requires
        i < f.row_groups@.len(),
        columns_there(f.schema, cols@),
        old(st).cols@.len() == cols@.len(),
        old(st).nulls@.len() == cols@.len(),
    ensures
        scanned(r, final(st)@, scan_group(*c, *f, file@, cols@, i as int, old(st)@)),
        final(st).cols@.len() == cols@.len(),
        final(st).nulls@.len() == cols@.len(),
{
    let meta: RowGroupMeta = f.row_groups[i];
    let rows: u32 = meta.row_count;
    if rows == 0 {
        return Ok(());
    }
    let bm: u64 = rg_bitmap_len(rows);
    let g: Group = match open_group(c, &meta, file) {
        Err(e) => {
            return Err(e);
        },
        Ok(g) => g,
    };
    let body: &[u8] = g.body();
    let start: u64 = rg_id_section_len(rows, g.ids);
    let deleted: Option<&[u8]> = get_window(body, start, bm);
    let placed: bool = g.flag == RG_COMPRESS_NONE && g.version >= 1 && f.column_offset(
        i,
        0,
    ).is_some();
    if placed {
        let pieces: Vec<Option<Piece>> = match get_placed_pieces(c, f, body, i, cols) {
            Err(e) => {
                return Err(e);
            },
            Ok(v) => v,
        };
        if let Some(d) = deleted {
            add_bytes(&mut st.deleted, d);
        }
        feed_all(c, &f.schema, cols, rows, st, pieces);
        return Ok(());
    }
    let d: &[u8] = match deleted {
        None => {
            return Err(ScanError::DeletionsTruncated);
        },
        Some(d) => d,
    };
    let wanted: Vec<bool> = get_wanted(cols, f.schema.columns.len());
    let found: Vec<Found> = match find_columns(
        c,
        &f.schema,
        g.version >= 1,
        body,
        bm,
        &wanted,
        None,
        start + bm,
    ) {
        Err(e) => {
            return Err(e);
        },
        Ok(v) => v,
    };
    add_bytes(&mut st.deleted, d);
    feed_all(c, &f.schema, cols, rows, st, take_pieces(found, cols));
    Ok(())
}

impl<C: ColumnCodec> OnDemandStorage<C> {
    /// What reading whole columns gives.
    pub open spec fn whole_columns(self, cols: Seq<usize>, footer: V4Footer) -> Result<
        ScanSeq,
        ScanError,
    > {
        match self.file {
            None => Err(ScanError::NotOpen),
            Some(file) => scan_upto(
                self.codec,
                footer,
                file@,
                cols,
                footer.row_groups@.len() as int,
            ),
        }
    }

    /// Reads whole columns, with the deletion bitmaps and the null bitmaps of all row groups.
    pub fn scan_columns_mmap_with_nulls(&self, col_indices: &[usize], footer: &V4Footer) -> (r: Result<
        Scanned,
        ScanError,
    >)
        requires
            columns_there(footer.schema, col_indices@),
        ensures
            match r {
                Err(e) => self.whole_columns(col_indices@, *footer) == Err::<ScanSeq, ScanError>(e),
                Ok(s) => self.whole_columns(col_indices@, *footer) == Ok::<ScanSeq, ScanError>(s@),
            },
    {
        let file: &[u8] = match &self.file {
            None => {
                return Err(ScanError::NotOpen);
            },
            Some(v) => v.as_slice(),
        };
        let c: &C = &self.codec;
        let ghost n = footer.row_groups@.len() as int;
        let mut nulls: Vec<Vec<u8>> = Vec::new();
        let mut p: usize = 0;
        while p < col_indices.len()
            invariant
                p <= col_indices.len(),
                nulls@.len() == p,
                forall|k: int| 0 <= k < p ==> (#[trigger] nulls@[k])@ == Seq::<u8>::empty(),
            decreases col_indices.len() - p,
        {
            let none: Vec<u8> = Vec::new();
            nulls.push(none);
            p = p + 1;
        }
        let cols: Vec<ColumnData> = start_columns(&footer.schema, col_indices);
        let mut st: Scanned = Scanned { cols, deleted: Vec::new(), nulls };
        proof {
            assert(st@ =~= scan_start(footer.schema, col_indices@));
            assert(columns_view(st.cols@).len() == col_indices@.len());
        }
        let mut i: usize = 0;
        while i < footer.row_groups.len()
            invariant
                i <= footer.row_groups@.len(),
                n == footer.row_groups@.len(),
                columns_there(footer.schema, col_indices@),
                self.file matches Some(v) && v@ == file@,
                *c == self.codec,
                st.cols@.len() == col_indices@.len(),
                st.nulls@.len() == col_indices@.len(),
                scan_upto(*c, *footer, file@, col_indices@, i as int) == Ok::<ScanSeq, ScanError>(
                    st@,
                ),
            decreases footer.row_groups@.len() - i,
        {
            match scan_one(c, footer, file, col_indices, i, &mut st) {
                Err(e) => {
                    proof {
                        scan_upto_failed(*c, *footer, file@, col_indices@, i + 1, n);
                    }
                    return Err(e);
                },
                Ok(_) => {},
            }
            i = i + 1;
        }
        Ok(st)
    }

    /// Reads whole columns, with the deletion bitmaps of all row groups.
    pub fn scan_columns_mmap(&self, col_indices: &[usize], footer: &V4Footer) -> (r: Result<
        (Vec<ColumnData>, Vec<u8>),
        ScanError,
    >)
        requires
            columns_there(footer.schema, col_indices@),
        ensures
            match r {
                Err(e) => self.whole_columns(col_indices@, *footer) == Err::<ScanSeq, ScanError>(e),
                Ok((cols, deleted)) => self.whole_columns(col_indices@, *footer) matches Ok(s)
                    && columns_view(cols@) == s.cols && deleted@ == s.deleted,
            },
    {
        match self.scan_columns_mmap_with_nulls(col_indices, footer) {
            Err(e) => Err(e),
            Ok(s) => Ok((s.cols, s.deleted)),
        }
    }
}

proof fn bit_set(data: Seq<u8>, len: int)
    requires
        0 <= len,
        data.len() == bitmap_len(len),
    ensures
        bit(with_bit(data, len, true), len),
        with_bit(data, len, true).len() == bitmap_len(len + 1),
        forall|i: int| bit(data, i) ==> #[trigger] bit(with_bit(data, len, true), i),
{
    let k = len / 8;
    let m: u8 = (len % 8) as u8;
    let now = with_bit(data, len, true);
    assert(m < 8);
    assert(((1u8 << m) >> m) & 1u8 == 1u8) by (bit_vector)
        requires
            m < 8,
    ;
    if k < data.len() {
        let b = data[k];
        assert(((b | (1u8 << m)) >> m) & 1u8 == 1u8) by (bit_vector)
            requires
                m < 8,
        ;
        assert forall|i: int| bit(data, i) implies #[trigger] bit(now, i) by {
            if i / 8 == k {
                let j: u8 = (i % 8) as u8;
                assert((b >> j) & 1u8 == 1u8 ==> ((b | (1u8 << m)) >> j) & 1u8 == 1u8)
                    by (bit_vector)
                    requires
                        j < 8,
                        m < 8,
                ;
            }
        }
    }
}

/// In a row group that lacks a column every row is marked as having no value there.
pub proof fn law_lacking_is_null(n: int, i: int)
    requires
        0 <= i < n,
    ensures
        bit(full_bits(n), i),
        full_bits(n).len() == bitmap_len(n),
    decreases n,
{
    full_len(n - 1);
    bit_set(full_bits(n - 1), n - 1);
    if i < n - 1 {
        law_lacking_is_null(n - 1, i);
    }
}

proof fn full_len(n: int)
    requires
        0 <= n,
    ensures
        full_bits(n).len() == bitmap_len(n),
    decreases n,
{
    if n > 0 {
        full_len(n - 1);
        bit_set(full_bits(n - 1), n - 1);
    }
}

} // verus!
