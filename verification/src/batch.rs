//! Batches of rows, read one after the other.

use vstd::prelude::*;

use crate::arrays::{array_of, convert_column, ArrayDesc, ArraySeq};
use crate::bytes::{as_signed, bit, bitmap_len, read_u64, signed, test_bit, u64_le};
use crate::codec::ColumnCodec;
use crate::column::{ColumnData, ColumnSeq};
use crate::column_ops::{
    create_default_column, default_column, joined, picked, rows_of_column, sliced, spelled,
};
use crate::column_scan::{
    column_read, columns_view, find_columns, found_from, found_view, get_wanted, pieces_view,
    read_one, scan_start, start_columns, take_pieces, walked_piece, walked_pieces, wanted_of,
    Found, FoundSeq, Piece,
};
use crate::fts::{get_live_rows, live_rows, live_rows_bound};
use crate::group::{
    get_stored, get_tail, get_window, group_of, id_at, id_section, open_group, rg_bitmap_len,
    rg_id_at, rg_id_section_len, stored_group, tail, window, Group, GroupSeq,
};
use crate::model::{
    is_float, is_int, rows_before, str_eq, ColumnType, OnDemandSchema, RowGroupMeta, ScanError,
    V4Footer, RG_COMPRESS_NONE, RG_IDS_IMPLICIT_CONTIGUOUS,
};
use crate::numeric::min2;
use crate::storage::OnDemandStorage;

verus! {

/// The type of a field of a batch without rows.
#[derive(Clone, Copy, Debug, PartialEq, Eq, Structural)]
pub enum FieldType {
    Int64,
    Float64,
    Boolean,
    Utf8,
}

/// A batch of rows.
#[derive(Debug, PartialEq, Eq)]
pub enum BatchDesc {
    /// No rows: the fields alone, behind that of the identifiers where they are shown.
    Empty { with_id: bool, fields: Vec<(String, FieldType)> },
    /// The identifiers of the rows, whether they are shown, and the arrays under their names.
    Rows { with_id: bool, ids: Vec<i64>, columns: Vec<(String, ArrayDesc)> },
}

/// A batch of rows, as sequences.
#[verifier::ext_equal]
pub enum BatchSeq {
    Empty { with_id: bool, fields: Seq<(Seq<char>, FieldType)> },
    Rows { with_id: bool, ids: Seq<i64>, columns: Seq<(Seq<char>, ArraySeq)> },
}

/// Fields as sequences.
pub open spec fn fields_view(v: Seq<(String, FieldType)>) -> Seq<(Seq<char>, FieldType)> {
    Seq::new(v.len(), |i: int| (v[i].0@, v[i].1))
}

/// Named arrays as sequences.
pub open spec fn arrays_view(v: Seq<(String, ArrayDesc)>) -> Seq<(Seq<char>, ArraySeq)> {
    Seq::new(v.len(), |i: int| (v[i].0@, v[i].1@))
}

impl View for BatchDesc {
    type V = BatchSeq;

    open spec fn view(&self) -> BatchSeq {
        match *self {
            BatchDesc::Empty { with_id, fields } => BatchSeq::Empty {
                with_id,
                fields: fields_view(fields@),
            },
            BatchDesc::Rows { with_id, ids, columns } => BatchSeq::Rows {
                with_id,
                ids: ids@,
                columns: arrays_view(columns@),
            },
        }
    }
}

/// Names as sequences.
pub open spec fn names_view(names: Option<&[&str]>) -> Option<Seq<Seq<char>>> {
    match names {
        None => None,
        Some(v) => Some(Seq::new(v@.len(), |i: int| v@[i]@)),
    }
}

/// The columns behind the first `k` of some names, without the identifier and without names that
/// the schema does not have.
pub open spec fn named_columns(schema: OnDemandSchema, names: Seq<Seq<char>>, k: int) -> Seq<usize>
    decreases k,
{
    if k <= 0 {
        Seq::empty()
    } else {
        let before = named_columns(schema, names, k - 1);
        match schema.index_of(names[k - 1]) {
            Some(i) => if names[k - 1] == "_id"@ {
                before
            } else {
                before.push(i)
            },
            None => before,
        }
    }
}

/// The columns of a batch: all of them where no names are given.
pub open spec fn batch_columns(schema: OnDemandSchema, names: Option<Seq<Seq<char>>>) -> Seq<usize> {
    match names {
        None => span(0, schema.columns@.len() as int),
        Some(v) => named_columns(schema, v, v.len() as int),
    }
}

/// `n` numbers from `a` on.
pub open spec fn span(a: int, n: int) -> Seq<usize> {
    Seq::new(
        (if n < 0 {
            0
        } else {
            n
        }) as nat,
        |i: int| (a + i) as usize,
    )
}

pub(crate) fn get_span(a: usize, n: usize) -> (r: Vec<usize>)
    requires
        a + n <= usize::MAX,
    ensures
        r@ == span(a as int, n as int),
{
    let mut out: Vec<usize> = Vec::with_capacity(n);
    let mut i: usize = 0;
    while i < n
        invariant
            i <= n,
            a + n <= usize::MAX,
            out@ =~= span(a as int, n as int).take(i as int),
        decreases n - i,
    {
        out.push(a + i);
        i = i + 1;
    }
    assert(span(a as int, n as int).take(n as int) =~= span(a as int, n as int));
    out
}

pub(crate) fn get_batch_columns(schema: &OnDemandSchema, names: Option<&[&str]>) -> (r: Vec<usize>)
    ensures
        r@ == batch_columns(*schema, names_view(names)),
        forall|p: int| 0 <= p < r@.len() ==> #[trigger] r@[p] < schema.columns@.len(),
{
    match names {
        None => {
            let all: Vec<usize> = get_span(0, schema.columns.len());
            all
        },
        Some(v) => {
            let ghost texts: Seq<Seq<char>> = Seq::new(v@.len(), |i: int| v@[i]@);
            let mut out: Vec<usize> = Vec::new();
            let mut k: usize = 0;
            assert(out@ =~= Seq::empty());
            while k < v.len()
                invariant
                    k <= v.len(),
                    texts == Seq::new(v@.len(), |i: int| v@[i]@),
                    out@ == named_columns(*schema, texts, k as int),
                    forall|p: int| 0 <= p < out@.len() ==> #[trigger] out@[p] < schema.columns@.len(),
                decreases v.len() - k,
            {
                let name: &str = v[k];
                assert(texts[k as int] == name@);
                if let Some(i) = schema.get_index(name) {
                    if !str_eq(name, "_id") {
                        out.push(i);
                    }
                }
                k = k + 1;
            }
            out
        },
    }
}

/// The type of a field without rows.
pub open spec fn field_type(kind: ColumnType) -> FieldType {
    if is_int(kind) && !(kind is Timestamp) && !(kind is Date) {
        FieldType::Int64
    } else if is_float(kind) {
        FieldType::Float64
    } else if kind is Bool {
        FieldType::Boolean
    } else {
        FieldType::Utf8
    }
}

fn get_field_type(kind: ColumnType) -> (r: FieldType)
    ensures
        r == field_type(kind),
{
    if kind.is_int() && kind != ColumnType::Timestamp && kind != ColumnType::Date {
        FieldType::Int64
    } else if kind.is_float() {
        FieldType::Float64
    } else if kind == ColumnType::Bool {
        FieldType::Boolean
    } else {
        FieldType::Utf8
    }
}

/// The fields of a batch without rows.
pub open spec fn empty_fields(schema: OnDemandSchema, cols: Seq<usize>) -> Seq<
    (Seq<char>, FieldType),
> {
    Seq::new(
        cols.len(),
        |p: int|
            (schema.columns@[cols[p] as int].0@, field_type(schema.kind(cols[p] as int))),
    )
}

fn get_empty_fields(schema: &OnDemandSchema, cols: &Vec<usize>) -> (r: Vec<(String, FieldType)>)
    requires
        forall|p: int| 0 <= p < cols@.len() ==> #[trigger] cols@[p] < schema.columns@.len(),
    ensures
        fields_view(r@) == empty_fields(*schema, cols@),
{
    let mut out: Vec<(String, FieldType)> = Vec::with_capacity(cols.len());
    let mut p: usize = 0;
    while p < cols.len()
        invariant
            p <= cols@.len(),
            forall|p: int| 0 <= p < cols@.len() ==> #[trigger] cols@[p] < schema.columns@.len(),
            out@.len() == p,
            forall|k: int|
                0 <= k < p ==> (#[trigger] out@[k]).0@ == schema.columns@[cols@[k] as int].0@
                    && out@[k].1 == field_type(schema.kind(cols@[k] as int)),
        decreases cols@.len() - p,
    {
        assert(cols@[p as int] < schema.columns@.len());
        let c: usize = cols[p];
        out.push((schema.columns[c].0.as_str().to_owned(), get_field_type(schema.columns[c].1)));
        p = p + 1;
    }
    assert(fields_view(out@) =~= empty_fields(*schema, cols@));
    out
}

/// Live rows of the first `k` row groups.
pub open spec fn live_before(groups: Seq<RowGroupMeta>, k: int) -> int
    decreases k,
{
    if k <= 0 {
        0
    } else {
        live_before(groups, k - 1) + groups[k - 1].live()
    }
}

pub proof fn live_before_bound(groups: Seq<RowGroupMeta>, k: int, n: int)
    requires
        0 <= k <= n,
    ensures
        0 <= live_before(groups, k) <= live_before(groups, n),
        live_before(groups, k) <= rows_before(groups, k),
        live_before(groups, n) <= rows_before(groups, n),
    decreases n,
{
    if n > 0 {
        live_before_bound(groups, n - 1, n - 1);
        if k < n {
            live_before_bound(groups, k, n - 1);
        }
    }
}

pub(crate) fn count_live(f: &V4Footer) -> (r: usize)
    requires
        f.wf(),
    ensures
        r == live_before(f.row_groups@, f.row_groups@.len() as int),
{
    let mut sum: usize = 0;
    let mut i: usize = 0;
    while i < f.row_groups.len()
        invariant
            i <= f.row_groups@.len(),
            f.wf(),
            sum == live_before(f.row_groups@, i as int),
        decreases f.row_groups@.len() - i,
    {
        proof {
            live_before_bound(f.row_groups@, i + 1, f.row_groups@.len() as int);
        }
        sum = sum + f.row_groups[i].active_rows() as usize;
        i = i + 1;
    }
    sum
}

/// Entries `a..a + n` of a sequence, as far as they are there.
pub open spec fn clip(s: Seq<usize>, a: int, n: int) -> Seq<usize> {
    s.subrange(min2(a, s.len() as int), min2(a + n, s.len() as int))
}

fn get_clip(s: &Vec<usize>, a: usize, n: usize) -> (r: Vec<usize>)
    ensures
        r@ == clip(s@, a as int, n as int),
{
    let len: usize = s.len();
    let from: usize = if a < len {
        a
    } else {
        len
    };
    let to: usize = if n < len - from {
        from + n
    } else {
        len
    };
    let r: Vec<usize> = vstd::slice::slice_to_vec(
        vstd::slice::slice_subrange(s.as_slice(), from, to),
    );
    assert(r@ =~= clip(s@, a as int, n as int));
    r
}

/// The null marks of some rows.
pub open spec fn marks_at(nulls: Seq<u8>, rows: Seq<usize>) -> Seq<bool> {
    Seq::new(rows.len(), |i: int| bit(nulls, rows[i] as int))
}

fn add_marks(acc: &mut Vec<bool>, nulls: &[u8], rows: &Vec<usize>)
    ensures
        final(acc)@ == old(acc)@ + marks_at(nulls@, rows@),
{
    let ghost start = acc@;
    let mut i: usize = 0;
    while i < rows.len()
        invariant
            i <= rows@.len(),
            start == old(acc)@,
            acc@ =~= start + marks_at(nulls@, rows@).take(i as int),
        decreases rows@.len() - i,
    {
        acc.push(test_bit(nulls, rows[i]));
        i = i + 1;
    }
    assert(marks_at(nulls@, rows@).take(rows@.len() as int) =~= marks_at(nulls@, rows@));
}

/// `n` null marks.
pub open spec fn all_marked(n: int) -> Seq<bool> {
    Seq::new(n as nat, |i: int| true)
}

fn add_all_marked(acc: &mut Vec<bool>, n: usize)
    ensures
        final(acc)@ == old(acc)@ + all_marked(n as int),
{
    let ghost start = acc@;
    let mut i: usize = 0;
    while i < n
        invariant
            i <= n,
            start == old(acc)@,
            acc@ =~= start + all_marked(i as int),
        decreases n - i,
    {
        acc.push(true);
        i = i + 1;
    }
}

/// What a row group adds to one column.
pub enum PartSeq {
    /// Nothing at all.
    Nothing,
    /// Rows that hold nothing.
    Blank,
    /// Values and the bitmap of the missing ones.
    Values { data: ColumnSeq, nulls: Seq<u8> },
}

/// What a row group adds to one column.
pub enum Part {
    Nothing,
    Blank,
    Values { data: ColumnData, nulls: Vec<u8> },
}

impl View for Part {
    type V = PartSeq;

    open spec fn view(&self) -> PartSeq {
        match *self {
            Part::Nothing => PartSeq::Nothing,
            Part::Blank => PartSeq::Blank,
            Part::Values { data, nulls } => PartSeq::Values { data: data@, nulls: nulls@ },
        }
    }
}

/// Parts as sequences.
pub open spec fn parts_view(v: Seq<Part>) -> Seq<PartSeq> {
    Seq::new(v.len(), |i: int| v[i]@)
}

/// What is collected: identifiers, columns and null marks; with the rows that were taken and those
/// that were come by.
#[verifier::ext_equal]
pub struct GatherSeq {
    pub ids: Seq<i64>,
    pub cols: Seq<ColumnSeq>,
    pub nulls: Seq<Seq<bool>>,
    pub taken: int,
    pub seen: int,
}

/// What is collected.
pub struct Gathered {
    pub ids: Vec<i64>,
    pub cols: Vec<ColumnData>,
    pub nulls: Vec<Vec<bool>>,
    pub taken: usize,
    pub seen: usize,
}

/// Marks as sequences.
pub open spec fn marks_view(v: Seq<Vec<bool>>) -> Seq<Seq<bool>> {
    Seq::new(v.len(), |i: int| v[i]@)
}

impl View for Gathered {
    type V = GatherSeq;

    open spec fn view(&self) -> GatherSeq {
        GatherSeq {
            ids: self.ids@,
            cols: columns_view(self.cols@),
            nulls: marks_view(self.nulls@),
            taken: self.taken as int,
            seen: self.seen as int,
        }
    }
}

/// A column with a part added.
pub open spec fn col_with<C: ColumnCodec>(
    c: C,
    kind: ColumnType,
    rows: Seq<usize>,
    blanks: int,
    col: ColumnSeq,
    part: PartSeq,
) -> ColumnSeq {
    match part {
        PartSeq::Nothing => col,
        PartSeq::Blank => joined(c, col, default_column(c, kind, blanks)),
        PartSeq::Values { data, .. } => joined(c, col, data),
    }
}

/// Null marks with those of a part added.
pub open spec fn marks_with(
    rows: Seq<usize>,
    blanks: int,
    marks: Seq<bool>,
    part: PartSeq,
) -> Seq<bool> {
    match part {
        PartSeq::Nothing => marks,
        PartSeq::Blank => marks + all_marked(blanks),
        PartSeq::Values { nulls, .. } => marks + marks_at(nulls, rows),
    }
}

/// A collection with a part added to each column: the parts hold the values of `rows`, and `blanks`
/// rows stand in where there are none.
pub open spec fn with_parts<C: ColumnCodec>(
    c: C,
    schema: OnDemandSchema,
    cols: Seq<usize>,
    rows: Seq<usize>,
    blanks: int,
    st: GatherSeq,
    parts: Seq<PartSeq>,
) -> GatherSeq {
    GatherSeq {
        cols: Seq::new(
            cols.len(),
            |p: int|
                col_with(c, schema.kind(cols[p] as int), rows, blanks, st.cols[p], parts[p]),
        ),
        nulls: Seq::new(cols.len(), |p: int| marks_with(rows, blanks, st.nulls[p], parts[p])),
        ..st
    }
}

fn add_parts<C: ColumnCodec>(
    c: &C,
    schema: &OnDemandSchema,
    cols: &Vec<usize>,
    rows: &Vec<usize>,
    blanks: usize,
    st: &mut Gathered,
    parts: &Vec<Part>,
)
    requires
        forall|p: int| 0 <= p < cols@.len() ==> #[trigger] cols@[p] < schema.columns@.len(),
        old(st).cols@.len() == cols@.len(),
        old(st).nulls@.len() == cols@.len(),
        parts@.len() == cols@.len(),
    ensures
        final(st).cols@.len() == cols@.len(),
        final(st).nulls@.len() == cols@.len(),
        final(st).taken == old(st).taken,
        final(st).seen == old(st).seen,
        final(st)@ == with_parts(
            *c,
            *schema,
            cols@,
            rows@,
            blanks as int,
            old(st)@,
            parts_view(parts@),
        ),
{
    let ghost was = *st;
    let ghost wc = columns_view(st.cols@);
    let ghost wn = marks_view(st.nulls@);
    let ghost pv = parts_view(parts@);
    let mut p: usize = 0;
    while p < cols.len()
        invariant
            p <= cols@.len(),
            forall|p: int| 0 <= p < cols@.len() ==> #[trigger] cols@[p] < schema.columns@.len(),
            st.cols@.len() == cols@.len(),
            st.nulls@.len() == cols@.len(),
            parts@.len() == cols@.len(),
            pv == parts_view(parts@),
            st.ids == was.ids,
            st.taken == was.taken,
            st.seen == was.seen,
            wc == columns_view(was.cols@),
            wn == marks_view(was.nulls@),
            wc.len() == cols@.len(),
            wn.len() == cols@.len(),
            forall|k: int| p <= k < cols@.len() ==> (#[trigger] st.cols@[k])@ == wc[k],
            forall|k: int| p <= k < cols@.len() ==> (#[trigger] st.nulls@[k])@ == wn[k],
            forall|k: int|
                0 <= k < p ==> (#[trigger] st.cols@[k])@ == col_with(
                    *c,
                    schema.kind(cols@[k] as int),
                    rows@,
                    blanks as int,
                    wc[k],
                    pv[k],
                ),
            forall|k: int|
                0 <= k < p ==> (#[trigger] st.nulls@[k])@ == marks_with(
                    rows@,
                    blanks as int,
                    wn[k],
                    pv[k],
                ),
        decreases cols@.len() - p,
    {
        assert(cols@[p as int] < schema.columns@.len());
        let kind: ColumnType = schema.columns[cols[p]].1;
        let ghost prior_cols = st.cols@;
        let ghost prior_nulls = st.nulls@;
        assert(pv[p as int] == parts@[p as int]@);
        let mut col: ColumnData = st.cols.remove(p);
        let mut marks: Vec<bool> = st.nulls.remove(p);
        assert(col@ == wc[p as int]);
        assert(marks@ == wn[p as int]);
        match &parts[p] {
            Part::Nothing => {},
            Part::Blank => {
                let blank: ColumnData = create_default_column(c, kind, blanks);
                col.append(c, &blank);
                add_all_marked(&mut marks, blanks);
            },
            Part::Values { data, nulls } => {
                col.append(c, data);
                add_marks(&mut marks, nulls.as_slice(), rows);
            },
        }
        let ghost new_col = col;
        let ghost new_marks = marks;
        st.cols.insert(p, col);
        st.nulls.insert(p, marks);
        proof {
            assert(st.cols@ =~= prior_cols.update(p as int, new_col));
            assert(st.nulls@ =~= prior_nulls.update(p as int, new_marks));
        }
        p = p + 1;
    }
    proof {
        let want = with_parts(*c, *schema, cols@, rows@, blanks as int, was@, pv);
        assert(columns_view(st.cols@) =~= want.cols);
        assert(marks_view(st.nulls@) =~= want.nulls);
    }
}

/// Rows `skip..skip + take` of one row group.
#[verifier::ext_equal]
pub struct Cut {
    pub skip: int,
    pub take: int,
}

/// What row group `i` adds to a column, from its place on record in the file. Where it is cut off
/// there is nothing, or rows that hold nothing where the cut is `wide`.
#[verifier::opaque]
pub open spec fn placed_part<C: ColumnCodec>(
    c: C,
    f: V4Footer,
    file: Seq<u8>,
    i: int,
    col: int,
    cut: Cut,
    wide: bool,
) -> Result<PartSeq, ScanError> {
    let meta = f.row_groups@[i];
    let bm = bitmap_len(meta.row_count as int);
    match f.rcix(i, col) {
        None => Ok(PartSeq::Blank),
        Some(o) => {
            let at = meta.offset + 32 + o;
            if at + bm >= file.len() {
                Ok(
                    if wide {
                        PartSeq::Blank
                    } else {
                        PartSeq::Nothing
                    },
                )
            } else {
                let first = if cut.skip == 0 && cut.take < meta.row_count {
                    Some(cut.take as nat)
                } else {
                    None
                };
                match column_read(c, true, tail(file, at + bm), f.schema.kind(col), first) {
                    None => Err(ScanError::Codec),
                    Some((v, _)) => {
                        let whole = spelled(c, v);
                        Ok(
                            PartSeq::Values {
                                data: if cut.skip > 0 || cut.take < rows_of_column(c, whole) {
                                    sliced(c, whole, cut.skip, cut.skip + cut.take)
                                } else {
                                    whole
                                },
                                nulls: file.subrange(at, at + bm),
                            },
                        )
                    },
                }
            }
        },
    }
}

fn get_placed_part<C: ColumnCodec>(
    c: &C,
    f: &V4Footer,
    file: &[u8],
    i: usize,
    col: usize,
    skip: usize,
    take: usize,
    wide: bool,
) -> (r: Result<Part, ScanError>)
    requires
        i < f.row_groups@.len(),
        col < f.schema.columns@.len(),
        skip + take <= usize::MAX,
    ensures
        ({
            let want = placed_part(
                *c,
                *f,
                file@,
                i as int,
                col as int,
                Cut { skip: skip as int, take: take as int },
                wide,
            );
            match r {
                Err(e) => want == Err::<PartSeq, ScanError>(e),
                Ok(p) => want == Ok::<PartSeq, ScanError>(p@),
            }
        }),
{
    reveal(placed_part);
    let meta: RowGroupMeta = f.row_groups[i];
    let bm: u64 = rg_bitmap_len(meta.row_count);
    let o: u32 = match f.column_offset(i, col) {
        None => {
            return Ok(Part::Blank);
        },
        Some(o) => o,
    };
    let at: u128 = meta.offset as u128 + 32 + o as u128;
    if at + bm as u128 >= file.len() as u128 {
        return Ok(
            if wide {
                Part::Blank
            } else {
                Part::Nothing
            },
        );
    }
    let from: usize = at as usize;
    let to: usize = (at + bm as u128) as usize;
    let first: Option<usize> = if skip == 0 && (take as u64) < meta.row_count as u64 {
        Some(take)
    } else {
        None
    };
    match read_one(c, true, get_tail(file, to), f.schema.columns[col].1, first) {
        None => Err(ScanError::Codec),
        Some((v, _)) => {
            let whole: ColumnData = v.decode_string_dict(c);
            let nulls: Vec<u8> = vstd::slice::slice_to_vec(
                vstd::slice::slice_subrange(file, from, to),
            );
            if skip > 0 || take < whole.len(c) {
                Ok(Part::Values { data: whole.slice_range(c, skip, skip + take), nulls })
            } else {
                Ok(Part::Values { data: whole, nulls })
            }
        },
    }
}

/// What row group `i` adds to the first `p` columns, from their places on record.
pub open spec fn placed_parts<C: ColumnCodec>(
    c: C,
    f: V4Footer,
    file: Seq<u8>,
    i: int,
    cols: Seq<usize>,
    cut: Cut,
    wide: bool,
    p: int,
) -> Result<Seq<PartSeq>, ScanError>
    decreases p,
{
    if p <= 0 {
        Ok(Seq::empty())
    } else {
        match placed_parts(c, f, file, i, cols, cut, wide, p - 1) {
            Err(e) => Err(e),
            Ok(before) => match placed_part(c, f, file, i, cols[p - 1] as int, cut, wide) {
                Err(e) => Err(e),
                Ok(part) => Ok(before.push(part)),
            },
        }
    }
}

proof fn placed_parts_failed<C: ColumnCodec>(
    c: C,
    f: V4Footer,
    file: Seq<u8>,
    i: int,
    cols: Seq<usize>,
    cut: Cut,
    wide: bool,
    j: int,
    p: int,
)
    requires
        0 <= j <= p,
        placed_parts(c, f, file, i, cols, cut, wide, j) is Err,
    ensures
        placed_parts(c, f, file, i, cols, cut, wide, p) == placed_parts(
            c,
            f,
            file,
            i,
            cols,
            cut,
            wide,
            j,
        ),
    decreases p,
{
    if j < p {
        placed_parts_failed(c, f, file, i, cols, cut, wide, j, p - 1);
    }
}

fn get_placed_parts<C: ColumnCodec>(
    c: &C,
    f: &V4Footer,
    file: &[u8],
    i: usize,
    cols: &Vec<usize>,
    skip: usize,
    take: usize,
    wide: bool,
) -> (r: Result<Vec<Part>, ScanError>)
    requires
        i < f.row_groups@.len(),
        forall|p: int| 0 <= p < cols@.len() ==> #[trigger] cols@[p] < f.schema.columns@.len(),
        skip + take <= usize::MAX,
    ensures
        ({
            let want = placed_parts(
                *c,
                *f,
                file@,
                i as int,
                cols@,
                Cut { skip: skip as int, take: take as int },
                wide,
                cols@.len() as int,
            );
            match r {
                Err(e) => want == Err::<Seq<PartSeq>, ScanError>(e),
                Ok(v) => want == Ok::<Seq<PartSeq>, ScanError>(parts_view(v@)) && v@.len()
                    == cols@.len(),
            }
        }),
{
    let ghost cut = Cut { skip: skip as int, take: take as int };
    let mut out: Vec<Part> = Vec::with_capacity(cols.len());
    let mut p: usize = 0;
    assert(parts_view(out@) =~= Seq::empty());
    while p < cols.len()
        invariant
            p <= cols@.len(),
            i < f.row_groups@.len(),
            forall|p: int| 0 <= p < cols@.len() ==> #[trigger] cols@[p] < f.schema.columns@.len(),
            skip + take <= usize::MAX,
            cut == (Cut { skip: skip as int, take: take as int }),
            out@.len() == p,
            placed_parts(*c, *f, file@, i as int, cols@, cut, wide, p as int) == Ok::<
                Seq<PartSeq>,
                ScanError,
            >(parts_view(out@)),
        decreases cols@.len() - p,
    {
        assert(cols@[p as int] < f.schema.columns@.len());
        match get_placed_part(c, f, file, i, cols[p], skip, take, wide) {
            Err(e) => {
                proof {
                    placed_parts_failed(
                        *c,
                        *f,
                        file@,
                        i as int,
                        cols@,
                        cut,
                        wide,
                        p + 1,
                        cols@.len() as int,
                    );
                }
                return Err(e);
            },
            Ok(part) => {
                let ghost before = parts_view(out@);
                let ghost now = part@;
                out.push(part);
                assert(parts_view(out@) =~= before.push(now));
            },
        }
        p = p + 1;
    }
    Ok(out)
}

/// Words of the file as identifiers.
pub open spec fn id_words(s: Seq<u8>, n: int) -> Seq<i64> {
    Seq::new(n as nat, |i: int| signed(u64_le(s, i * 8) as int) as i64)
}

/// `acc` with the identifiers of a row group whose columns have places on record.
pub open spec fn placed_ids(meta: RowGroupMeta, file: Seq<u8>, ids: u8, cut: Cut, acc: Seq<i64>) -> Option<
    Seq<i64>,
> {
    if ids == RG_IDS_IMPLICIT_CONTIGUOUS {
        if meta.min_id + cut.skip + cut.take - 1 > u64::MAX {
            None
        } else {
            Some(
                acc + Seq::new(
                    cut.take as nat,
                    |i: int| signed(meta.min_id + cut.skip + i) as i64,
                ),
            )
        }
    } else {
        match window(file, meta.offset + 32 + cut.skip * 8, cut.take * 8) {
            None => Some(acc),
            Some(w) => Some(acc + id_words(w, cut.take)),
        }
    }
}

fn add_placed_ids(
    meta: &RowGroupMeta,
    file: &[u8],
    ids: u8,
    skip: usize,
    take: usize,
    acc: &mut Vec<i64>,
) -> (ok: bool)
    requires
        0 < take,
        skip + take <= u32::MAX,
    ensures
        ok ==> placed_ids(
            *meta,
            file@,
            ids,
            Cut { skip: skip as int, take: take as int },
            old(acc)@,
        ) == Some(final(acc)@),
        !ok ==> placed_ids(
            *meta,
            file@,
            ids,
            Cut { skip: skip as int, take: take as int },
            old(acc)@,
        ) is None,
{
    let ghost start = acc@;
    if ids == RG_IDS_IMPLICIT_CONTIGUOUS {
        if meta.min_id as u128 + skip as u128 + take as u128 - 1 > u64::MAX as u128 {
            return false;
        }
        let ghost add = Seq::new(
            take as nat,
            |i: int| signed(meta.min_id + skip + i) as i64,
        );
        let mut i: usize = 0;
        while i < take
            invariant
                i <= take,
                meta.min_id + skip + take - 1 <= u64::MAX,
                add == Seq::new(take as nat, |i: int| signed(meta.min_id + skip + i) as i64),
                acc@ =~= start + add.take(i as int),
            decreases take - i,
        {
            acc.push(as_signed(meta.min_id + skip as u64 + i as u64));
            i = i + 1;
        }
        assert(add.take(take as int) =~= add);
        return true;
    }
    let at: u128 = meta.offset as u128 + 32 + skip as u128 * 8;
    if at + take as u128 * 8 <= file.len() as u128 {
        let w: &[u8] = vstd::slice::slice_subrange(file, at as usize, at as usize + take * 8);
        let mut i: usize = 0;
        while i < take
            invariant
                i <= take,
                w@.len() == take * 8,
                take * 8 <= usize::MAX,
                acc@ =~= start + id_words(w@, take as int).take(i as int),
            decreases take - i,
        {
            acc.push(as_signed(read_u64(w, i * 8)));
            i = i + 1;
        }
        assert(id_words(w@, take as int).take(take as int) =~= id_words(w@, take as int));
    }
    true
}

/// `acc` with the identifiers of some rows of a body, `None` where one is cut off.
pub open spec fn body_ids(
    body: Seq<u8>,
    min_id: u64,
    ids: u8,
    rows: Seq<usize>,
    acc: Seq<i64>,
) -> Option<Seq<i64>>
    decreases rows.len(),
{
    if rows.len() == 0 {
        Some(acc)
    } else {
        match body_ids(body, min_id, ids, rows.drop_last(), acc) {
            None => None,
            Some(before) => match id_at(body, min_id, ids, rows.last() as int) {
                None => None,
                Some(id) => Some(before.push(signed(id) as i64)),
            },
        }
    }
}

proof fn body_ids_failed(
    body: Seq<u8>,
    min_id: u64,
    ids: u8,
    rows: Seq<usize>,
    acc: Seq<i64>,
    j: int,
)
    requires
        0 <= j <= rows.len(),
        body_ids(body, min_id, ids, rows.take(j), acc) is None,
    ensures
        body_ids(body, min_id, ids, rows, acc) is None,
    decreases rows.len() - j,
{
    if j < rows.len() {
        assert(rows.take(j + 1).drop_last() =~= rows.take(j));
        body_ids_failed(body, min_id, ids, rows, acc, j + 1);
    } else {
        assert(rows.take(j) =~= rows);
    }
}

fn add_body_ids(body: &[u8], min_id: u64, ids: u8, rows: &Vec<usize>, acc: &mut Vec<i64>) -> (ok:
    bool)
    requires
        forall|i: int| 0 <= i < rows@.len() ==> #[trigger] rows@[i] <= u32::MAX,
    ensures
        ok ==> body_ids(body@, min_id, ids, rows@, old(acc)@) == Some(final(acc)@),
        !ok ==> body_ids(body@, min_id, ids, rows@, old(acc)@) is None,
{
    let ghost start = acc@;
    let mut i: usize = 0;
    assert(rows@.take(0) =~= Seq::empty());
    while i < rows.len()
        invariant
            i <= rows@.len(),
            start == old(acc)@,
            forall|i: int| 0 <= i < rows@.len() ==> #[trigger] rows@[i] <= u32::MAX,
            body_ids(body@, min_id, ids, rows@.take(i as int), start) == Some(acc@),
        decreases rows@.len() - i,
    {
        let row: usize = rows[i];
        proof {
            assert(rows@.take(i + 1).drop_last() =~= rows@.take(i as int));
            assert(rows@.take(i + 1).last() == row);
            assert(rows@[i as int] <= u32::MAX);
        }
        match rg_id_at(body, min_id, ids, row as u32) {
            None => {
                proof {
                    body_ids_failed(body@, min_id, ids, rows@, start, i + 1);
                }
                return false;
            },
            Some(id) => {
                acc.push(as_signed(id));
            },
        }
        i = i + 1;
    }
    assert(rows@.take(rows@.len() as int) =~= rows@);
    true
}

/// The rows of a row group that a cut takes.
pub open spec fn cut_rows(meta: RowGroupMeta, deleted: Seq<u8>, cut: Cut) -> Seq<usize> {
    if meta.deletion_count > 0 {
        clip(live_rows(deleted, meta.row_count as int), cut.skip, cut.take)
    } else {
        span(cut.skip, cut.take)
    }
}

/// Whether a cut is served by the first rows of a column alone.
pub open spec fn served_by_first(meta: RowGroupMeta, version: u8, cut: Cut) -> bool {
    meta.deletion_count == 0 && cut.skip == 0 && cut.take < meta.row_count && version >= 1
}

/// The values that a cut takes from a column that a walk came by.
pub open spec fn walked_values<C: ColumnCodec>(
    c: C,
    meta: RowGroupMeta,
    version: u8,
    rows: Seq<usize>,
    cut: Cut,
    v: ColumnSeq,
) -> ColumnSeq {
    let whole = spelled(c, v);
    if served_by_first(meta, version, cut) {
        whole
    } else if meta.deletion_count > 0 {
        picked(c, whole, rows)
    } else if cut.skip > 0 || cut.take < meta.row_count {
        sliced(c, whole, cut.skip, cut.skip + cut.take)
    } else {
        whole
    }
}

/// What a cut adds to each column, among the columns that a walk came by.
pub open spec fn walked_parts<C: ColumnCodec>(
    c: C,
    meta: RowGroupMeta,
    version: u8,
    rows: Seq<usize>,
    cut: Cut,
    found: Seq<FoundSeq>,
    cols: Seq<usize>,
) -> Seq<PartSeq> {
    Seq::new(
        cols.len(),
        |p: int|
            match walked_piece(found, cols, p) {
                None => PartSeq::Blank,
                Some(x) => PartSeq::Values {
                    data: walked_values(c, meta, version, rows, cut, x.data),
                    nulls: x.nulls,
                },
            },
    )
}

fn get_walked_parts<C: ColumnCodec>(
    c: &C,
    meta: &RowGroupMeta,
    version: u8,
    rows: &Vec<usize>,
    skip: usize,
    take: usize,
    found: Vec<Found>,
    cols: &Vec<usize>,
) -> (r: Vec<Part>)
    requires
        skip + take <= usize::MAX,
    ensures
        r@.len() == cols@.len(),
        parts_view(r@) == walked_parts(
            *c,
            *meta,
            version,
            rows@,
            Cut { skip: skip as int, take: take as int },
            found_view(found@),
            cols@,
        ),
{
    let ghost all = found_view(found@);
    let ghost cut = Cut { skip: skip as int, take: take as int };
    let mut pieces: Vec<Option<Piece>> = take_pieces(found, cols.as_slice());
    let mut out: Vec<Part> = Vec::with_capacity(cols.len());
    let n: usize = pieces.len();
    let first: bool = meta.deletion_count == 0 && skip == 0 && (take as u64)
        < meta.row_count as u64 && version >= 1;
    let ghost given = pieces@;
    let mut p: usize = 0;
    while p < n
        invariant
            p <= n,
            n == cols@.len(),
            skip + take <= usize::MAX,
            cut == (Cut { skip: skip as int, take: take as int }),
            first == served_by_first(*meta, version, cut),
            given.len() == n,
            pieces_view(given) == walked_pieces(all, cols@),
            pieces@ =~= given.skip(p as int),
            out@.len() == p,
            forall|k: int|
                0 <= k < p ==> (#[trigger] out@[k])@ == walked_parts(
                    *c,
                    *meta,
                    version,
                    rows@,
                    cut,
                    all,
                    cols@,
                )[k],
        decreases n - p,
    {
        let x: Option<Piece> = pieces.remove(0);
        proof {
            assert(x == given[p as int]);
            assert(pieces_view(given)[p as int] == walked_pieces(all, cols@)[p as int]);
        }
        match x {
            None => {
                out.push(Part::Blank);
            },
            Some(y) => {
                let whole: ColumnData = y.data.decode_string_dict(c);
                let data: ColumnData = if first {
                    whole
                } else if meta.deletion_count > 0 {
                    whole.filter_by_indices(c, rows.as_slice())
                } else if skip > 0 || (take as u64) < meta.row_count as u64 {
                    whole.slice_range(c, skip, skip + take)
                } else {
                    whole
                };
                out.push(Part::Values { data, nulls: y.nulls });
            },
        }
        p = p + 1;
    }
    proof {
        let want = walked_parts(*c, *meta, version, rows@, cut, all, cols@);
        assert(parts_view(out@) =~= want);
    }
    out
}

/// A collection after a cut of row group `i` whose columns have places on record.
pub open spec fn gather_placed<C: ColumnCodec>(
    c: C,
    f: V4Footer,
    file: Seq<u8>,
    ids: u8,
    cols: Seq<usize>,
    i: int,
    cut: Cut,
    st: GatherSeq,
) -> Result<GatherSeq, ScanError> {
    match placed_ids(f.row_groups@[i], file, ids, cut, st.ids) {
        None => Err(ScanError::LengthOverflow),
        Some(now) => {
            let wide = cut.take >= 50_000 && cols.len() >= 2;
            match placed_parts(c, f, file, i, cols, cut, wide, cols.len() as int) {
                Err(e) => Err(e),
                Ok(parts) => Ok(
                    with_parts(
                        c,
                        f.schema,
                        cols,
                        span(cut.skip, cut.take),
                        cut.take,
                        GatherSeq { ids: now, ..st },
                        parts,
                    ),
                ),
            }
        },
    }
}

fn add_placed<C: ColumnCodec>(
    c: &C,
    f: &V4Footer,
    file: &[u8],
    ids: u8,
    cols: &Vec<usize>,
    i: usize,
    skip: usize,
    take: usize,
    st: &mut Gathered,
) -> (r: Result<(), ScanError>)
    requires
        i < f.row_groups@.len(),
        forall|p: int| 0 <= p < cols@.len() ==> #[trigger] cols@[p] < f.schema.columns@.len(),
        0 < take,
        skip + take <= u32::MAX,
        old(st).cols@.len() == cols@.len(),
        old(st).nulls@.len() == cols@.len(),
    ensures
        final(st).cols@.len() == cols@.len(),
        final(st).nulls@.len() == cols@.len(),
        final(st).taken == old(st).taken,
        final(st).seen == old(st).seen,
        gathered(
            r,
            final(st)@,
            gather_placed(
                *c,
                *f,
                file@,
                ids,
                cols@,
                i as int,
                Cut { skip: skip as int, take: take as int },
                old(st)@,
            ),
        ),
{
    let meta: RowGroupMeta = f.row_groups[i];
    let ghost was = st@;
    if !add_placed_ids(&meta, file, ids, skip, take, &mut st.ids) {
        return Err(ScanError::LengthOverflow);
    }
    assert(st@ =~= GatherSeq { ids: st.ids@, ..was });
    let wide: bool = take >= 50_000 && cols.len() >= 2;
    let parts: Vec<Part> = match get_placed_parts(c, f, file, i, cols, skip, take, wide) {
        Err(e) => {
            return Err(e);
        },
        Ok(v) => v,
    };
    let rows: Vec<usize> = get_span(skip, take);
    add_parts(c, &f.schema, cols, &rows, take, st, &parts);
    Ok(())
}

/// What a step of a collection comes to.
pub open spec fn gathered(
    r: Result<(), ScanError>,
    now: GatherSeq,
    want: Result<GatherSeq, ScanError>,
) -> bool {
    match r {
        Err(e) => want == Err::<GatherSeq, ScanError>(e),
        Ok(_) => want == Ok::<GatherSeq, ScanError>(now),
    }
}

/// The rows that a walk may read of a column alone.
pub open spec fn first_of(meta: RowGroupMeta, version: u8, cut: Cut) -> Option<nat> {
    if served_by_first(meta, version, cut) {
        Some(cut.take as nat)
    } else {
        None
    }
}

/// A collection after a cut of row group `i` whose columns are walked over.
pub open spec fn gather_walked<C: ColumnCodec>(
    c: C,
    f: V4Footer,
    g: GroupSeq,
    cols: Seq<usize>,
    i: int,
    cut: Cut,
    st: GatherSeq,
) -> Result<GatherSeq, ScanError> {
    let meta = f.row_groups@[i];
    let rows = meta.row_count as int;
    let bm = bitmap_len(rows);
    let head = id_section(rows, g.ids);
    if head > g.body.len() {
        Err(ScanError::IdsTruncated)
    } else {
        match window(g.body, head, bm) {
            None => Err(ScanError::DeletionsTruncated),
            Some(deleted) => {
                let places = cut_rows(meta, deleted, cut);
                match body_ids(g.body, meta.min_id, g.ids, places, st.ids) {
                    None => Err(ScanError::IdsTruncated),
                    Some(now) => match found_from(
                        c,
                        f.schema,
                        g.version >= 1,
                        g.body,
                        bm,
                        wanted_of(cols, f.schema.columns@.len() as int),
                        first_of(meta, g.version, cut),
                        Seq::empty(),
                        0,
                        head + bm,
                    ) {
                        Err(e) => Err(e),
                        Ok(found) => Ok(
                            with_parts(
                                c,
                                f.schema,
                                cols,
                                places,
                                cut.take,
                                GatherSeq { ids: now, ..st },
                                walked_parts(c, meta, g.version, places, cut, found, cols),
                            ),
                        ),
                    },
                }
            },
        }
    }
}

fn get_cut_rows(meta: &RowGroupMeta, deleted: &[u8], skip: usize, take: usize) -> (r: Vec<usize>)
    requires
        skip + take <= meta.row_count,
    ensures
        r@ == cut_rows(*meta, deleted@, Cut { skip: skip as int, take: take as int }),
        forall|i: int| 0 <= i < r@.len() ==> #[trigger] r@[i] <= u32::MAX,
{
    if meta.deletion_count > 0 {
        let live: Vec<usize> = get_live_rows(deleted, meta.row_count);
        proof {
            live_rows_bound(deleted@, meta.row_count as int);
        }
        get_clip(&live, skip, take)
    } else {
        get_span(skip, take)
    }
}

fn add_walked<C: ColumnCodec>(
    c: &C,
    f: &V4Footer,
    g: &Group,
    cols: &Vec<usize>,
    i: usize,
    skip: usize,
    take: usize,
    st: &mut Gathered,
) -> (r: Result<(), ScanError>)
    requires
        i < f.row_groups@.len(),
        forall|p: int| 0 <= p < cols@.len() ==> #[trigger] cols@[p] < f.schema.columns@.len(),
        0 < take,
        skip + take <= f.row_groups@[i as int].row_count,
        old(st).cols@.len() == cols@.len(),
        old(st).nulls@.len() == cols@.len(),
    ensures
        final(st).cols@.len() == cols@.len(),
        final(st).nulls@.len() == cols@.len(),
        final(st).taken == old(st).taken,
        final(st).seen == old(st).seen,
        gathered(
            r,
            final(st)@,
            gather_walked(
                *c,
                *f,
                g@,
                cols@,
                i as int,
                Cut { skip: skip as int, take: take as int },
                old(st)@,
            ),
        ),
{
    let meta: RowGroupMeta = f.row_groups[i];
    let ghost was = st@;
    let body: &[u8] = g.body();
    let bm: u64 = rg_bitmap_len(meta.row_count);
    let head: u64 = rg_id_section_len(meta.row_count, g.ids);
    if head > body.len() as u64 {
        return Err(ScanError::IdsTruncated);
    }
    let deleted: &[u8] = match get_window(body, head, bm) {
        None => {
            return Err(ScanError::DeletionsTruncated);
        },
        Some(w) => w,
    };
    let places: Vec<usize> = get_cut_rows(&meta, deleted, skip, take);
    if !add_body_ids(body, meta.min_id, g.ids, &places, &mut st.ids) {
        return Err(ScanError::IdsTruncated);
    }
    assert(st@ =~= GatherSeq { ids: st.ids@, ..was });
    let wanted: Vec<bool> = get_wanted(cols.as_slice(), f.schema.columns.len());
    let first: Option<usize> = if meta.deletion_count == 0 && skip == 0 && (take as u64)
        < meta.row_count as u64 && g.version >= 1 {
        Some(take)
    } else {
        None
    };
    match find_columns(c, &f.schema, g.version >= 1, body, bm, &wanted, first, head + bm) {
        Err(e) => {
            return Err(e);
        },
        Ok(found) => {
            let parts: Vec<Part> = get_walked_parts(
                c,
                &meta,
                g.version,
                &places,
                skip,
                take,
                found,
                cols,
            );
            add_parts(c, &f.schema, cols, &places, take, st, &parts);
        },
    }
    Ok(())
}

/// The part of a row group that lies between `start` and the first `limit` rows behind it, where
/// `seen` rows come before the row group and `taken` ones were taken.
pub open spec fn cut_of(live: int, start: int, limit: int, taken: int, seen: int) -> Cut {
    let skip = if start <= seen {
        0
    } else {
        min2(start - seen, live)
    };
    Cut { skip, take: min2(limit - taken, live - skip) }
}

/// A collection after row group `i`.
pub open spec fn gather_group<C: ColumnCodec>(
    c: C,
    f: V4Footer,
    file: Seq<u8>,
    cols: Seq<usize>,
    start: int,
    limit: int,
    i: int,
    st: GatherSeq,
) -> Result<GatherSeq, ScanError> {
    let meta = f.row_groups@[i];
    let live = meta.live();
    let cut = cut_of(live, start, limit, st.taken, st.seen);
    if st.taken >= limit || meta.row_count == 0 {
        Ok(st)
    } else if st.seen + live <= start || cut.take == 0 {
        Ok(GatherSeq { seen: st.seen + live, ..st })
    } else {
        match stored_group(meta, file) {
            Err(e) => Err(e),
            Ok(s) => {
                let now = if s[28] == RG_COMPRESS_NONE && meta.deletion_count == 0 && s[29] >= 1
                    && f.rcix(i, 0) is Some {
                    gather_placed(c, f, file, s[30], cols, i, cut, st)
                } else {
                    match group_of(c, meta, file) {
                        Err(e) => Err(e),
                        Ok(g) => gather_walked(c, f, g, cols, i, cut, st),
                    }
                };
                match now {
                    Err(e) => Err(e),
                    Ok(n) => Ok(
                        GatherSeq { taken: st.taken + cut.take, seen: st.seen + live, ..n },
                    ),
                }
            },
        }
    }
}

/// What is collected from the first `k` row groups.
pub open spec fn gather_upto<C: ColumnCodec>(
    c: C,
    f: V4Footer,
    file: Seq<u8>,
    cols: Seq<usize>,
    start: int,
    limit: int,
    k: int,
) -> Result<GatherSeq, ScanError>
    decreases k,
{
    if k <= 0 {
        Ok(
            GatherSeq {
                ids: Seq::empty(),
                cols: scan_start(f.schema, cols).cols,
                nulls: Seq::new(cols.len(), |p: int| Seq::empty()),
                taken: 0,
                seen: 0,
            },
        )
    } else {
        match gather_upto(c, f, file, cols, start, limit, k - 1) {
            Err(e) => Err(e),
            Ok(st) => gather_group(c, f, file, cols, start, limit, k - 1, st),
        }
    }
}

proof fn gather_upto_failed<C: ColumnCodec>(
    c: C,
    f: V4Footer,
    file: Seq<u8>,
    cols: Seq<usize>,
    start: int,
    limit: int,
    j: int,
    k: int,
)
    requires
        0 <= j <= k,
        gather_upto(c, f, file, cols, start, limit, j) is Err,
    ensures
        gather_upto(c, f, file, cols, start, limit, k) == gather_upto(
            c,
            f,
            file,
            cols,
            start,
            limit,
            j,
        ),
    decreases k,
{
    if j < k {
        gather_upto_failed(c, f, file, cols, start, limit, j, k - 1);
    }
}

fn gather_one<C: ColumnCodec>(
    c: &C,
    f: &V4Footer,
    file: &[u8],
    cols: &Vec<usize>,
    start: usize,
    limit: usize,
    i: usize,
    st: &mut Gathered,
) -> (r: Result<(), ScanError>)
    requires
        f.wf(),
        i < f.row_groups@.len(),
        forall|p: int| 0 <= p < cols@.len() ==> #[trigger] cols@[p] < f.schema.columns@.len(),
        old(st).cols@.len() == cols@.len(),
        old(st).nulls@.len() == cols@.len(),
        old(st).seen <= live_before(f.row_groups@, i as int),
        old(st).taken <= limit,
    ensures
        final(st).cols@.len() == cols@.len(),
        final(st).nulls@.len() == cols@.len(),
        r is Ok ==> final(st).seen <= live_before(f.row_groups@, i + 1),
        r is Ok ==> final(st).taken <= limit,
        gathered(
            r,
            final(st)@,
            gather_group(
                *c,
                *f,
                file@,
                cols@,
                start as int,
                limit as int,
                i as int,
                old(st)@,
            ),
        ),
{
    let meta: RowGroupMeta = f.row_groups[i];
    let ghost was = st@;
    proof {
        live_before_bound(f.row_groups@, i + 1, f.row_groups@.len() as int);
    }
    if st.taken >= limit || meta.row_count == 0 {
        return Ok(());
    }
    let live: usize = meta.active_rows() as usize;
    let after: usize = st.seen + live;
    if after <= start {
        st.seen = after;
        assert(st@ =~= GatherSeq { seen: was.seen + live, ..was });
        return Ok(());
    }
    let skip: usize = if start <= st.seen {
        0
    } else {
        start - st.seen
    };
    let left: usize = limit - st.taken;
    let take: usize = if left < live - skip {
        left
    } else {
        live - skip
    };
    if take == 0 {
        st.seen = after;
        assert(st@ =~= GatherSeq { seen: was.seen + live, ..was });
        return Ok(());
    }
    assert(cut_of(meta.live(), start as int, limit as int, was.taken, was.seen) =~= Cut {
        skip: skip as int,
        take: take as int,
    });
    let s: &[u8] = match get_stored(&meta, file) {
        Err(e) => {
            return Err(e);
        },
        Ok(s) => s,
    };
    let r: Result<(), ScanError> = if s[28] == RG_COMPRESS_NONE && meta.deletion_count == 0
        && s[29] >= 1 && f.column_offset(i, 0).is_some() {
        add_placed(c, f, file, s[30], cols, i, skip, take, st)
    } else {
        match open_group(c, &meta, file) {
            Err(e) => Err(e),
            Ok(g) => add_walked(c, f, &g, cols, i, skip, take, st),
        }
    };
    match r {
        Err(e) => Err(e),
        Ok(_) => {
            let ghost n = st@;
            st.taken = st.taken + take;
            st.seen = after;
            assert(st@ =~= GatherSeq { taken: was.taken + take, seen: was.seen + live, ..n });
            Ok(())
        },
    }
}

/// The arrays of the first `p` columns of a collection.
pub open spec fn named_arrays<C: ColumnCodec>(
    c: C,
    schema: OnDemandSchema,
    cols: Seq<usize>,
    st: GatherSeq,
    dict: bool,
    p: int,
) -> Result<Seq<(Seq<char>, ArraySeq)>, ScanError>
    decreases p,
{
    if p <= 0 {
        Ok(Seq::empty())
    } else {
        match named_arrays(c, schema, cols, st, dict, p - 1) {
            Err(e) => Err(e),
            Ok(before) => match array_of(
                c,
                schema.kind(cols[p - 1] as int),
                st.cols[p - 1],
                st.nulls[p - 1],
                st.taken,
                dict,
            ) {
                Err(e) => Err(e),
                Ok(a) => Ok(before.push((schema.columns@[cols[p - 1] as int].0@, a))),
            },
        }
    }
}

proof fn named_arrays_failed<C: ColumnCodec>(
    c: C,
    schema: OnDemandSchema,
    cols: Seq<usize>,
    st: GatherSeq,
    dict: bool,
    j: int,
    p: int,
)
    requires
        0 <= j <= p,
        named_arrays(c, schema, cols, st, dict, j) is Err,
    ensures
        named_arrays(c, schema, cols, st, dict, p) == named_arrays(c, schema, cols, st, dict, j),
    decreases p,
{
    if j < p {
        named_arrays_failed(c, schema, cols, st, dict, j, p - 1);
    }
}

pub(crate) fn get_named_arrays<C: ColumnCodec>(
    c: &C,
    schema: &OnDemandSchema,
    cols: &Vec<usize>,
    st: &Gathered,
    dict: bool,
) -> (r: Result<Vec<(String, ArrayDesc)>, ScanError>)
    requires
        forall|p: int| 0 <= p < cols@.len() ==> #[trigger] cols@[p] < schema.columns@.len(),
        st.cols@.len() == cols@.len(),
        st.nulls@.len() == cols@.len(),
    ensures
        ({
            let want = named_arrays(*c, *schema, cols@, st@, dict, cols@.len() as int);
            match r {
                Err(e) => want == Err::<Seq<(Seq<char>, ArraySeq)>, ScanError>(e),
                Ok(v) => want == Ok::<Seq<(Seq<char>, ArraySeq)>, ScanError>(arrays_view(v@)),
            }
        }),
{
    let mut out: Vec<(String, ArrayDesc)> = Vec::with_capacity(cols.len());
    let mut p: usize = 0;
    assert(arrays_view(out@) =~= Seq::empty());
    while p < cols.len()
        invariant
            p <= cols@.len(),
            forall|p: int| 0 <= p < cols@.len() ==> #[trigger] cols@[p] < schema.columns@.len(),
            st.cols@.len() == cols@.len(),
            st.nulls@.len() == cols@.len(),
            named_arrays(*c, *schema, cols@, st@, dict, p as int) == Ok::<
                Seq<(Seq<char>, ArraySeq)>,
                ScanError,
            >(arrays_view(out@)),
        decreases cols@.len() - p,
    {
        assert(cols@[p as int] < schema.columns@.len());
        let ci: usize = cols[p];
        assert(st@.cols[p as int] == st.cols@[p as int]@);
        assert(st@.nulls[p as int] == st.nulls@[p as int]@);
        match convert_column(
            c,
            schema.columns[ci].1,
            &st.cols[p],
            &st.nulls[p],
            st.taken,
            dict,
        ) {
            Err(e) => {
                proof {
                    named_arrays_failed(
                        *c,
                        *schema,
                        cols@,
                        st@,
                        dict,
                        p + 1,
                        cols@.len() as int,
                    );
                }
                return Err(e);
            },
            Ok(a) => {
                let ghost before = arrays_view(out@);
                let ghost now = a@;
                out.push((schema.columns[ci].0.as_str().to_owned(), a));
                assert(arrays_view(out@) =~= before.push(
                    (schema.columns@[ci as int].0@, now),
                ));
            },
        }
        p = p + 1;
    }
    Ok(out)
}

/// A batch, where there is one.
pub open spec fn batch_view(r: Result<Option<BatchDesc>, ScanError>) -> Result<
    Option<BatchSeq>,
    ScanError,
> {
    match r {
        Err(e) => Err(e),
        Ok(None) => Ok(None),
        Ok(Some(b)) => Ok(Some(b@)),
    }
}

impl<C: ColumnCodec> OnDemandStorage<C> {
    /// The batch of the live rows from `offset` on, at most `limit` of them: the named columns, all
    /// where no names are given. There is none without a catalogue.
    pub open spec fn batch_range(
        self,
        names: Option<Seq<Seq<char>>>,
        with_id: bool,
        offset: int,
        limit: Option<usize>,
        dict: bool,
    ) -> Result<Option<BatchSeq>, ScanError> {
        match self.footer {
            None => Ok(None),
            Some(f) => {
                let cols = batch_columns(f.schema, names);
                let groups = f.row_groups@;
                let total = live_before(groups, groups.len() as int);
                if total == 0 {
                    Ok(Some(BatchSeq::Empty { with_id, fields: empty_fields(f.schema, cols) }))
                } else {
                    match self.file {
                        None => Err(ScanError::NotOpen),
                        Some(file) => {
                            let start = min2(offset, total);
                            let most = match limit {
                                None => total - start,
                                Some(n) => min2(n as int, total - start),
                            };
                            match gather_upto(
                                self.codec,
                                f,
                                file@,
                                cols,
                                start,
                                most,
                                groups.len() as int,
                            ) {
                                Err(e) => Err(e),
                                Ok(st) => match named_arrays(
                                    self.codec,
                                    f.schema,
                                    cols,
                                    st,
                                    dict,
                                    cols.len() as int,
                                ) {
                                    Err(e) => Err(e),
                                    Ok(columns) => Ok(
                                        Some(BatchSeq::Rows { with_id, ids: st.ids, columns }),
                                    ),
                                },
                            }
                        },
                    }
                }
            },
        }
    }

    /// Describes the batch of the live rows from `row_offset` on, at most `row_limit` of them.
    pub fn describe_batch_range(
        &self,
        column_names: Option<&[&str]>,
        include_id: bool,
        row_offset: usize,
        row_limit: Option<usize>,
        dict_encode_strings: bool,
    ) -> (r: Result<Option<BatchDesc>, ScanError>)
        requires
            self.wf(),
        ensures
            batch_view(r) == self.batch_range(
                names_view(column_names),
                include_id,
                row_offset as int,
                row_limit,
                dict_encode_strings,
            ),
    {
        let f: &V4Footer = match self.get_or_load_footer() {
            None => {
                return Ok(None);
            },
            Some(f) => f,
        };
        let cols: Vec<usize> = get_batch_columns(&f.schema, column_names);
        let total: usize = count_live(f);
        if total == 0 {
            return Ok(Some(BatchDesc::Empty { with_id: include_id, fields: get_empty_fields(&f.schema, &cols) }));
        }
        let file: &Vec<u8> = match &self.file {
            None => {
                return Err(ScanError::NotOpen);
            },
            Some(v) => v,
        };
        let start: usize = if row_offset < total {
            row_offset
        } else {
            total
        };
        let rest: usize = total - start;
        let limit: usize = match row_limit {
            None => rest,
            Some(n) => if n < rest {
                n
            } else {
                rest
            },
        };
        let data: Vec<ColumnData> = start_columns(&f.schema, cols.as_slice());
        assert(columns_view(data@).len() == cols@.len());
        let mut nulls: Vec<Vec<bool>> = Vec::with_capacity(cols.len());
        let mut p: usize = 0;
        while p < cols.len()
            invariant
                p <= cols@.len(),
                nulls@.len() == p,
                forall|k: int| 0 <= k < p ==> (#[trigger] nulls@[k])@ == Seq::<bool>::empty(),
            decreases cols@.len() - p,
        {
            nulls.push(Vec::new());
            p = p + 1;
        }
        let mut st: Gathered = Gathered { ids: Vec::new(), cols: data, nulls, taken: 0, seen: 0 };
        let ghost n = f.row_groups@.len() as int;
        let ghost none: Seq<Seq<bool>> = Seq::new(cols@.len(), |p: int| Seq::empty());
        assert(marks_view(st.nulls@) =~= none);
        assert(gather_upto(
            self.codec,
            *f,
            file@,
            cols@,
            start as int,
            limit as int,
            0,
        ) == Ok::<GatherSeq, ScanError>(st@));
        let mut i: usize = 0;
        while i < f.row_groups.len()
            invariant
                i <= f.row_groups@.len(),
                n == f.row_groups@.len(),
                f.wf(),
                forall|p: int|
                    0 <= p < cols@.len() ==> #[trigger] cols@[p] < f.schema.columns@.len(),
                st.cols@.len() == cols@.len(),
                st.nulls@.len() == cols@.len(),
                st.seen <= live_before(f.row_groups@, i as int),
                st.taken <= limit,
                self.footer == Some(*f),
                self.file == Some(*file),
                gather_upto(
                    self.codec,
                    *f,
                    file@,
                    cols@,
                    start as int,
                    limit as int,
                    i as int,
                ) == Ok::<GatherSeq, ScanError>(st@),
                start == min2(row_offset as int, total as int),
                limit as int == (match row_limit {
                    None => total - start,
                    Some(n) => min2(n as int, total - start),
                }),
                total == live_before(f.row_groups@, n),
                total != 0,
                cols@ == batch_columns(f.schema, names_view(column_names)),
            decreases f.row_groups@.len() - i,
        {
            match gather_one(
                &self.codec,
                f,
                file.as_slice(),
                &cols,
                start,
                limit,
                i,
                &mut st,
            ) {
                Err(e) => {
                    proof {
                        gather_upto_failed(
                            self.codec,
                            *f,
                            file@,
                            cols@,
                            start as int,
                            limit as int,
                            i + 1,
                            n,
                        );
                    }
                    return Err(e);
                },
                Ok(_) => {},
            }
            i = i + 1;
        }
        match get_named_arrays(&self.codec, &f.schema, &cols, &st, dict_encode_strings) {
            Err(e) => Err(e),
            Ok(columns) => Ok(Some(BatchDesc::Rows { with_id: include_id, ids: st.ids, columns })),
        }
    }
}

/// The live rows of the first `k` row groups.
pub open spec fn live_total(f: V4Footer, k: int) -> int
    decreases k,
{
    if k <= 0 {
        0
    } else {
        live_total(f, k - 1) + f.row_groups@[k - 1].live()
    }
}

/// A range takes the live rows from its start on, up to its limit: as many as there are.
pub proof fn law_range_takes<C: ColumnCodec>(
    c: C,
    f: V4Footer,
    file: Seq<u8>,
    cols: Seq<usize>,
    start: int,
    limit: int,
    k: int,
)
    requires
        0 <= start,
        0 <= limit,
        0 <= k,
        gather_upto(c, f, file, cols, start, limit, k) is Ok,
    ensures
        ({
            let there = live_total(f, k) - start;
            let st = gather_upto(c, f, file, cols, start, limit, k)->Ok_0;
            &&& st.taken == if there < 0 {
                0
            } else {
                min2(there, limit)
            }
            &&& st.taken < limit ==> st.seen == live_total(f, k)
        }),
    decreases k,
{
    if k > 0 {
        law_range_takes(c, f, file, cols, start, limit, k - 1);
        let st = gather_upto(c, f, file, cols, start, limit, k - 1)->Ok_0;
        let meta = f.row_groups@[k - 1];
        assert(0 <= meta.live());
        assert(meta.row_count == 0 ==> meta.live() == 0);
    }
}

} // verus!
