//! Counting the rows whose number lies outside of a range and whose string does not match a
//! pattern.

use vstd::prelude::*;

use crate::bytes::{bitmap_len, bitpack_value_at, i64_le, packed_value, read_i64};
use crate::codec::ColumnCodec;
use crate::column::{ColumnData, ColumnSeq, DictSeq, StringDictView};
use crate::double::{le, F64};
use crate::group::{get_stored, get_tail, get_window, rg_bitmap_len, stored_group, tail, window};
use crate::like::{classify_like_pattern, shape_of, LikeKind, LikeShape};
use crate::model::{
    is_float, is_int, is_text, rows_before, rows_before_monotonic, ColumnType, RowGroupMeta,
    ScanError, V4Footer, COL_ENCODING_BITPACK, COL_ENCODING_COMPACT_DICTIONARY, COL_ENCODING_PLAIN,
};
use crate::numeric::{
    is_open, min2, min_u64, range_test, row_open, slice_view, NumSeq, NumSource, NumTest, TestSeq,
};
use crate::select::{count_checked, count_rows_checked};
use crate::sorted::{column_bytes, get_column_bytes};
use crate::storage::OnDemandStorage;
use crate::text::{
    dict_flags, dict_hit, plain_text, read_plain_text, PlainText, StrTest, StrTestSeq, TextSeq,
};
use crate::text_scan::{
    all_quick, any_set, are_all_quick, get_quick_column, has_bits, quick_column, QuickColumn,
    QuickSeq,
};

verus! {

/// The numbers of a column, in place where they are packed and long enough to have a header.
pub open spec fn numbers_of_column<C: ColumnCodec>(c: C, kind: ColumnType, col: Seq<u8>) -> Result<
    Option<NumSeq>,
    ScanError,
> {
    if is_int(kind) && col.len() >= 18 && col[0] == COL_ENCODING_BITPACK {
        Ok(
            Some(
                NumSeq::Packed {
                    packed: tail(col, 18),
                    width: col[9] as int,
                    min: i64_le(col, 10),
                },
            ),
        )
    } else {
        match c.decoded(true, col, kind) {
            None => Err(ScanError::Codec),
            Some((ColumnSeq::Int64(v), _)) => Ok(Some(NumSeq::Ints(v))),
            Some((ColumnSeq::Float64(v), _)) => Ok(Some(NumSeq::Reals(v))),
            Some(_) => Ok(None),
        }
    }
}

/// Whether the number in row `i` lies in the range; a packed number that is not there counts as 0.
pub open spec fn inside(src: NumSeq, test: TestSeq, i: int) -> bool {
    match src {
        NumSeq::Packed { packed, width, min } => test.accepts_int(
            match packed_value(packed, width, min, i) {
                None => 0,
                Some(v) => v as int,
            },
        ),
        _ => src.hit(test, i),
    }
}

fn is_inside(src: &NumSource, test: &NumTest, i: usize) -> (r: bool)
    requires
        src@.covers(i + 1),
    ensures
        r == inside(src@, test@, i as int),
{
    match src {
        NumSource::Packed { packed, width, min } => match bitpack_value_at(
            packed,
            *width,
            *min,
            i,
        ) {
            None => test.accepts_int(0),
            Some(v) => test.accepts_int(v),
        },
        _ => src.hit(test, i),
    }
}

/// The rows of a plain string column that neither lie in the range nor match; `None` where the
/// string of such a row ends before it starts. A string that ends beyond the data does not count.
pub open spec fn apart_text(
    src: NumSeq,
    test: TestSeq,
    t: TextSeq,
    like: StrTestSeq,
    del: Option<Seq<u8>>,
    nulls: Seq<u8>,
    others: Seq<u8>,
) -> spec_fn(int) -> Option<bool> {
    |i: int|
        if !row_open(del, Some(nulls), i) || !row_open(None, Some(others), i) || inside(
            src,
            test,
            i,
        ) || t.end(i) > t.raw().len() {
            Some(false)
        } else if t.start(i) > t.end(i) {
            None
        } else {
            Some(!like.accepts(t.raw().subrange(t.start(i), t.end(i))))
        }
}

/// The rows of a dictionary column that neither lie in the range nor match.
pub open spec fn apart_dict(
    src: NumSeq,
    test: TestSeq,
    d: DictSeq,
    like: StrTestSeq,
    del: Option<Seq<u8>>,
    nulls: Seq<u8>,
    others: Seq<u8>,
) -> spec_fn(int) -> Option<bool> {
    |i: int|
        Some(
            row_open(del, Some(nulls), i) && row_open(None, Some(others), i) && !inside(
                src,
                test,
                i,
            ) && !dict_hit(d, like, d.indices[i] as int),
        )
}

fn count_apart_text(
    src: &NumSource,
    test: &NumTest,
    t: &PlainText,
    like: &StrTest,
    del: Option<&[u8]>,
    nulls: &[u8],
    others: &[u8],
    n: usize,
) -> (r: Option<usize>)
    requires
        t.wf(),
        n <= t.count,
        src@.covers(n as int),
    ensures
        match r {
            None => count_checked(
                apart_text(src@, test@, t@, like@, slice_view(del), nulls@, others@),
                n as int,
            ) is None,
            Some(k) => count_checked(
                apart_text(src@, test@, t@, like@, slice_view(del), nulls@, others@),
                n as int,
            ) == Some(k as int) && k <= n,
        },
{
    let ghost hit = apart_text(src@, test@, t@, like@, slice_view(del), nulls@, others@);
    let raw: &[u8] = t.raw();
    let f = |i: usize| -> (r: Option<bool>)
        requires
            i < n,
        ensures
            r == hit(i as int),
        {
            if !is_open(del, Some(nulls), i) || !is_open(None, Some(others), i) || is_inside(
                src,
                test,
                i,
            ) {
                Some(false)
            } else {
                let s: usize = t.start(i);
                let e: usize = t.end(i);
                if e > raw.len() {
                    Some(false)
                } else if s > e {
                    None
                } else {
                    Some(!like.accepts(vstd::slice::slice_subrange(raw, s, e)))
                }
            }
        };
    count_rows_checked(f, Ghost(hit), n)
}

fn count_apart_dict(
    src: &NumSource,
    test: &NumTest,
    d: &StringDictView,
    like: &StrTest,
    del: Option<&[u8]>,
    nulls: &[u8],
    others: &[u8],
    n: usize,
) -> (r: Option<usize>)
    requires
        n <= d.indices@.len(),
        src@.covers(n as int),
    ensures
        match r {
            None => count_checked(
                apart_dict(src@, test@, d@, like@, slice_view(del), nulls@, others@),
                n as int,
            ) is None,
            Some(k) => count_checked(
                apart_dict(src@, test@, d@, like@, slice_view(del), nulls@, others@),
                n as int,
            ) == Some(k as int) && k <= n,
        },
{
    let ghost hit = apart_dict(src@, test@, d@, like@, slice_view(del), nulls@, others@);
    let flags: Vec<bool> = dict_flags(d, like);
    let f = |i: usize| -> (r: Option<bool>)
        requires
            i < n,
        ensures
            r == hit(i as int),
        {
            if !is_open(del, Some(nulls), i) || !is_open(None, Some(others), i) || is_inside(
                src,
                test,
                i,
            ) {
                Some(false)
            } else {
                let k: u32 = d.indices[i];
                let matched: bool = k > 0 && ((k - 1) as u64) < flags.len() as u64 && flags[(k
                    - 1) as usize];
                Some(!matched)
            }
        };
    count_rows_checked(f, Ghost(hit), n)
}

/// What is counted: the columns, the range and the pattern.
pub struct NotSeq {
    pub num: int,
    pub num_kind: ColumnType,
    pub text: int,
    pub text_kind: ColumnType,
    pub test: TestSeq,
    pub like: StrTestSeq,
}

/// What is counted: the columns, the range and the pattern.
pub struct NotQuery<'a> {
    pub num: usize,
    pub num_kind: ColumnType,
    pub text: usize,
    pub text_kind: ColumnType,
    pub test: NumTest,
    pub like: StrTest<'a>,
}

impl<'a> View for NotQuery<'a> {
    type V = NotSeq;

    open spec fn view(&self) -> NotSeq {
        NotSeq {
            num: self.num as int,
            num_kind: self.num_kind,
            text: self.text as int,
            text_kind: self.text_kind,
            test: self.test@,
            like: self.like@,
        }
    }
}

/// A count where nothing was unreadable.
pub open spec fn counted(k: Option<int>) -> Result<int, ScanError> {
    match k {
        None => Err(ScanError::Corrupt),
        Some(n) => Ok(n),
    }
}

impl NotSeq {
    /// The count among rows whose numbers are `src`. What cannot be read there counts nothing.
    pub open spec fn among<C: ColumnCodec>(
        self,
        c: C,
        src: NumSeq,
        nulls: Seq<u8>,
        rows: int,
        del: Option<Seq<u8>>,
        q: QuickSeq,
    ) -> Result<int, ScanError> {
        if !(self.text_kind is StringDict) {
            match plain_text(q.data) {
                Some(t) if q.encoding == COL_ENCODING_PLAIN && src.covers(
                    min2(t.count, rows),
                ) => counted(
                    count_checked(
                        apart_text(src, self.test, t, self.like, del, nulls, q.nulls),
                        min2(t.count, rows),
                    ),
                ),
                _ => Ok(0),
            }
        } else if q.encoding != COL_ENCODING_PLAIN && q.encoding
            != COL_ENCODING_COMPACT_DICTIONARY {
            Ok(0)
        } else {
            match c.dictionary(q.encoding == COL_ENCODING_COMPACT_DICTIONARY, q.data) {
                Some(d) if src.covers(min2(d.indices.len() as int, rows)) => counted(
                    count_checked(
                        apart_dict(src, self.test, d, self.like, del, nulls, q.nulls),
                        min2(d.indices.len() as int, rows),
                    ),
                ),
                _ => Ok(0),
            }
        }
    }

    /// The count in row group `i`.
    pub open spec fn group<C: ColumnCodec>(self, c: C, f: V4Footer, file: Seq<u8>, i: int) -> Result<
        int,
        ScanError,
    > {
        let meta = f.row_groups@[i];
        let bm = bitmap_len(meta.row_count as int);
        match (quick_column(f, file, self.text, i), f.rcix(i, self.num)) {
            (Some(q), Some(o)) => {
                let body = tail(stored_group(meta, file)->Ok_0, 32);
                match window(body, o, bm) {
                    None => Ok(0),
                    Some(nulls) => match numbers_of_column(
                        c,
                        self.num_kind,
                        tail(body, o + bm),
                    ) {
                        Err(e) => Err(e),
                        Ok(None) => Ok(0),
                        Ok(Some(src)) => self.among(
                            c,
                            src,
                            nulls,
                            meta.row_count as int,
                            if meta.deletion_count > 0 {
                                q.deleted
                            } else {
                                None
                            },
                            q,
                        ),
                    },
                }
            },
            _ => Ok(0),
        }
    }

    /// The count in the first `k` row groups.
    pub open spec fn sum<C: ColumnCodec>(self, c: C, f: V4Footer, file: Seq<u8>, k: int) -> Result<
        int,
        ScanError,
    >
        decreases k,
    {
        if k <= 0 {
            Ok(0)
        } else {
            match (self.sum(c, f, file, k - 1), self.group(c, f, file, k - 1)) {
                (Err(e), _) => Err(e),
                (Ok(_), Err(e)) => Err(e),
                (Ok(a), Ok(b)) => Ok(a + b),
            }
        }
    }

    /// A count that has failed stays failed.
    pub proof fn sum_failed<C: ColumnCodec>(self, c: C, f: V4Footer, file: Seq<u8>, j: int, k: int)
        requires
            0 <= j <= k,
            self.sum(c, f, file, j) is Err,
        ensures
            self.sum(c, f, file, k) == self.sum(c, f, file, j),
        decreases k,
    {
        if j < k {
            self.sum_failed(c, f, file, j, k - 1);
        }
    }
}

/// Whether `r` is the count `want`, within `rows`.
pub open spec fn count_is(r: Result<usize, ScanError>, want: Result<int, ScanError>, rows: int) -> bool {
    match r {
        Err(e) => want == Err::<int, ScanError>(e),
        Ok(k) => want == Ok::<int, ScanError>(k as int) && k <= rows,
    }
}

impl<'a> NotQuery<'a> {
    fn among<C: ColumnCodec>(
        &self,
        c: &C,
        src: &NumSource,
        nulls: &[u8],
        rows: u32,
        del: Option<&[u8]>,
        q: &QuickColumn,
    ) -> (r: Result<usize, ScanError>)
        ensures
            count_is(
                r,
                self@.among(*c, src@, nulls@, rows as int, slice_view(del), q@),
                rows as int,
            ),
    {
        if !matches!(self.text_kind, ColumnType::StringDict) {
            match read_plain_text(q.data) {
                None => Ok(0),
                Some(t) => {
                    let n: usize = min_u64(t.count as u64, rows as u64) as usize;
                    if q.encoding != COL_ENCODING_PLAIN || !src.reaches(n) {
                        return Ok(0);
                    }
                    match count_apart_text(
                        src,
                        &self.test,
                        &t,
                        &self.like,
                        del,
                        nulls,
                        q.nulls,
                        n,
                    ) {
                        None => Err(ScanError::Corrupt),
                        Some(k) => Ok(k),
                    }
                },
            }
        } else if q.encoding != COL_ENCODING_PLAIN && q.encoding
            != COL_ENCODING_COMPACT_DICTIONARY {
            Ok(0)
        } else {
            match c.read_dictionary(q.encoding == COL_ENCODING_COMPACT_DICTIONARY, q.data) {
                None => Ok(0),
                Some(d) => {
                    let n: usize = min_u64(d.indices.len() as u64, rows as u64) as usize;
                    if !src.reaches(n) {
                        return Ok(0);
                    }
                    match count_apart_dict(
                        src,
                        &self.test,
                        &d,
                        &self.like,
                        del,
                        nulls,
                        q.nulls,
                        n,
                    ) {
                        None => Err(ScanError::Corrupt),
                        Some(k) => Ok(k),
                    }
                },
            }
        }
    }

    fn group<C: ColumnCodec>(&self, c: &C, f: &V4Footer, file: &[u8], i: usize) -> (r: Result<
        usize,
        ScanError,
    >)
        requires
            i < f.row_groups@.len(),
        ensures
            count_is(
                r,
                self@.group(*c, *f, file@, i as int),
                f.row_groups@[i as int].row_count as int,
            ),
    {
        let meta: RowGroupMeta = f.row_groups[i];
        let bm: u64 = rg_bitmap_len(meta.row_count);
        let (q, o): (QuickColumn, u32) = match (
            get_quick_column(f, file, self.text, i),
            f.column_offset(i, self.num),
        ) {
            (Some(q), Some(o)) => (q, o),
            _ => {
                return Ok(0);
            },
        };
        let s: &[u8] = match get_stored(&meta, file) {
            Err(_) => {
                return Ok(0);
            },
            Ok(s) => s,
        };
        let body: &[u8] = get_tail(s, 32);
        let nulls: &[u8] = match get_window(body, o as u64, bm) {
            None => {
                return Ok(0);
            },
            Some(w) => w,
        };
        let col: &[u8] = get_tail(body, (o as u64 + bm) as usize);
        let del: Option<&[u8]> = if meta.deletion_count > 0 {
            q.deleted
        } else {
            None
        };
        if self.num_kind.is_int() && col.len() >= 18 && col[0] == COL_ENCODING_BITPACK {
            let src: NumSource = NumSource::Packed {
                packed: get_tail(col, 18),
                width: col[9] as usize,
                min: read_i64(col, 10),
            };
            return self.among(c, &src, nulls, meta.row_count, del, &q);
        }
        match c.read_column(true, col, self.num_kind) {
            None => Err(ScanError::Codec),
            Some((ColumnData::Int64(v), _)) => {
                let src: NumSource = NumSource::Ints(&v);
                self.among(c, &src, nulls, meta.row_count, del, &q)
            },
            Some((ColumnData::Float64(v), _)) => {
                let src: NumSource = NumSource::Reals(&v);
                self.among(c, &src, nulls, meta.row_count, del, &q)
            },
            Some(_) => Ok(0),
        }
    }

    fn sum<C: ColumnCodec>(&self, c: &C, f: &V4Footer, file: &[u8]) -> (r: Result<usize, ScanError>)
        requires
            f.wf(),
        ensures
            count_is(
                r,
                self@.sum(*c, *f, file@, f.row_groups@.len() as int),
                f.total_rows(),
            ),
    {
        let ghost n = f.row_groups@.len() as int;
        let mut total: usize = 0;
        let mut i: usize = 0;
        while i < f.row_groups.len()
            invariant
                i <= f.row_groups@.len(),
                n == f.row_groups@.len(),
                f.wf(),
                total <= rows_before(f.row_groups@, i as int),
                self@.sum(*c, *f, file@, i as int) == Ok::<int, ScanError>(total as int),
            decreases f.row_groups@.len() - i,
        {
            proof {
                rows_before_monotonic(f.row_groups@, i + 1, n);
            }
            match self.group(c, f, file, i) {
                Err(e) => {
                    proof {
                        self@.sum_failed(*c, *f, file@, i + 1, n);
                    }
                    return Err(e);
                },
                Ok(k) => {
                    total = total + k;
                },
            }
            i = i + 1;
        }
        Ok(total)
    }
}

/// Whether the number of a row lies outside of the bounds. What is no number does.
pub open spec fn outside(col: ColumnSeq, low: F64, high: F64, i: int) -> bool {
    match col {
        ColumnSeq::Int64(v) => {
            let test = range_test(low, high);
            v[i] < test.low_i || v[i] > test.high_i
        },
        ColumnSeq::Float64(v) => !(le(low, v[i]) && le(v[i], high)),
        _ => false,
    }
}

/// How many of the rows `lo..hi` of a column lie outside of the bounds.
pub open spec fn count_outside(col: ColumnSeq, low: F64, high: F64, lo: int, hi: int) -> int
    decreases hi - lo,
{
    if lo >= hi {
        0
    } else {
        count_outside(col, low, high, lo, hi - 1) + if outside(col, low, high, hi - 1) {
            1int
        } else {
            0
        }
    }
}

/// How many numbers a column holds.
pub open spec fn numbers_len(col: ColumnSeq) -> Option<int> {
    match col {
        ColumnSeq::Int64(v) => Some(v.len() as int),
        ColumnSeq::Float64(v) => Some(v.len() as int),
        _ => None,
    }
}

fn get_count_outside(col: &ColumnData, low: F64, high: F64, lo: usize, hi: usize) -> (r: usize)
    requires
        numbers_len(col@) matches Some(n) && hi <= n,
        lo <= hi,
    ensures
        r == count_outside(col@, low, high, lo as int, hi as int),
        r <= hi - lo,
{
    let low_i: i64 = low.ceil_i64();
    let high_i: i64 = high.floor_i64();
    let mut count: usize = 0;
    let mut i: usize = lo;
    while i < hi
        invariant
            lo <= i <= hi,
            numbers_len(col@) matches Some(n) && hi <= n,
            low_i == range_test(low, high).low_i,
            high_i == range_test(low, high).high_i,
            count == count_outside(col@, low, high, lo as int, i as int),
            count <= i - lo,
        decreases hi - i,
    {
        let out: bool = match col {
            ColumnData::Int64(v) => v[i] < low_i || v[i] > high_i,
            ColumnData::Float64(v) => !(low.le(v[i]) && v[i].le(high)),
            _ => false,
        };
        if out {
            count = count + 1;
        }
        i = i + 1;
    }
    count
}

/// The rows `lo..hi` of the table as rows of a row group that starts at row `start`.
pub open spec fn local_range(lo: int, hi: int, start: int, rows: int) -> (int, int) {
    (
        if lo > start {
            lo - start
        } else {
            0
        },
        min2(hi - start, rows),
    )
}

/// How many of the rows `lo..hi` in the first `k` row groups have a number outside of the bounds;
/// `None` where a row group that is looked at cannot be read in place or has too few numbers.
pub open spec fn count_out<C: ColumnCodec>(
    c: C,
    f: V4Footer,
    file: Seq<u8>,
    col: int,
    rows: (int, int),
    low: F64,
    high: F64,
    k: int,
) -> Result<Option<int>, ScanError>
    decreases k,
{
    if k <= 0 {
        Ok(Some(0))
    } else {
        match count_out(c, f, file, col, rows, low, high, k - 1) {
            Err(e) => Err(e),
            Ok(None) => Ok(None),
            Ok(Some(before)) => {
                let n = f.row_groups@[k - 1].row_count as int;
                let bm = bitmap_len(n);
                let start = rows_before(f.row_groups@, k - 1);
                if n == 0 || start + n <= rows.0 || start >= rows.1 {
                    Ok(Some(before))
                } else {
                    let (lo, hi) = local_range(rows.0, rows.1, start, n);
                    match column_bytes(f, file, col, k - 1) {
                        Err(e) => Err(e),
                        Ok(None) => Ok(None),
                        Ok(Some(s)) => if s.len() < bm {
                            Ok(None)
                        } else {
                            match c.decoded(true, tail(s, bm), f.schema.kind(col)) {
                                None => Err(ScanError::Codec),
                                Some((v, _)) => match numbers_len(v) {
                                    Some(len) if hi <= len => Ok(
                                        Some(before + count_outside(v, low, high, lo, hi)),
                                    ),
                                    _ => Ok(None),
                                },
                            }
                        },
                    }
                }
            },
        }
    }
}

proof fn count_out_over<C: ColumnCodec>(
    c: C,
    f: V4Footer,
    file: Seq<u8>,
    col: int,
    rows: (int, int),
    low: F64,
    high: F64,
    j: int,
    k: int,
)
    requires
        0 <= j <= k,
        !(count_out(c, f, file, col, rows, low, high, j) matches Ok(Some(_))),
    ensures
        count_out(c, f, file, col, rows, low, high, k) == count_out(
            c,
            f,
            file,
            col,
            rows,
            low,
            high,
            j,
        ),
    decreases k,
{
    if j < k {
        count_out_over(c, f, file, col, rows, low, high, j, k - 1);
    }
}

/// Whether a column has a value in every row: it can be read in place in every row group with rows, and
/// no null bit is set.
pub open spec fn no_gaps(f: V4Footer, file: Seq<u8>, col: int) -> bool {
    forall|i: int| 0 <= i < f.row_groups@.len() ==> #[trigger] group_full(f, file, col, i)
}

/// Whether a column has a value in every row of row group `i`.
pub open spec fn group_full(f: V4Footer, file: Seq<u8>, col: int, i: int) -> bool {
    let bm = bitmap_len(f.row_groups@[i].row_count as int);
    f.row_groups@[i].row_count == 0 || (column_bytes(f, file, col, i) matches Ok(Some(s)) && bm
        <= s.len() && !has_bits(s.take(bm)))
}

fn has_no_gaps(f: &V4Footer, file: &[u8], col: usize) -> (r: bool)
    ensures
        r == no_gaps(*f, file@, col as int),
{
    let mut i: usize = 0;
    while i < f.row_groups.len()
        invariant
            i <= f.row_groups@.len(),
            forall|k: int| 0 <= k < i ==> #[trigger] group_full(*f, file@, col as int, k),
        decreases f.row_groups@.len() - i,
    {
        let bm: u64 = rg_bitmap_len(f.row_groups[i].row_count);
        let full: bool = f.row_groups[i].row_count == 0 || match get_column_bytes(f, file, col, i) {
            Ok(Some(s)) => match get_window(s, 0, bm) {
                None => false,
                Some(w) => {
                    assert(w@ =~= s@.take(bm as int));
                    !any_set(w)
                },
            },
            _ => false,
        };
        assert(full == group_full(*f, file@, col as int, i as int));
        if !full {
            return false;
        }
        i = i + 1;
    }
    true
}

/// Whether no row of any row group is deleted.
pub open spec fn undeleted(f: V4Footer) -> bool {
    forall|i: int|
        0 <= i < f.row_groups@.len() ==> (#[trigger] f.row_groups@[i]).deletion_count == 0
}

fn is_undeleted(f: &V4Footer) -> (r: bool)
    ensures
        r == undeleted(*f),
{
    let mut i: usize = 0;
    while i < f.row_groups.len()
        invariant
            i <= f.row_groups@.len(),
            forall|k: int| 0 <= k < i ==> (#[trigger] f.row_groups@[k]).deletion_count == 0,
        decreases f.row_groups@.len() - i,
    {
        if f.row_groups[i].deletion_count != 0 {
            return false;
        }
        i = i + 1;
    }
    true
}

/// A count as a number.
pub open spec fn count_view(r: Result<Option<i64>, ScanError>) -> Result<Option<int>, ScanError> {
    match r {
        Err(e) => Err(e),
        Ok(None) => Ok(None),
        Ok(Some(k)) => Ok(Some(k as int)),
    }
}

impl<C: ColumnCodec> OnDemandStorage<C> {
    /// How many of the rows `lo..hi` have a number outside of the bounds.
    pub open spec fn out_in_range(self, col: int, lo: int, hi: int, low: F64, high: F64) -> Result<
        Option<int>,
        ScanError,
    > {
        match (self.footer, self.file) {
            (Some(f), Some(file)) => count_out(
                self.codec,
                f,
                file@,
                col,
                (lo, hi),
                low,
                high,
                f.row_groups@.len() as int,
            ),
            _ => Ok(None),
        }
    }

    /// Counts the rows among `lo_idx..hi_idx` that have a number outside of the bounds.
    pub fn count_age_out_in_range(
        &self,
        num_idx: usize,
        lo_idx: usize,
        hi_idx: usize,
        lo: F64,
        hi: F64,
    ) -> (r: Result<Option<i64>, ScanError>)
        requires
            self.wf(),
            self.footer matches Some(f) ==> num_idx < f.schema.columns@.len(),
        ensures
            count_view(r) == self.out_in_range(
                num_idx as int,
                lo_idx as int,
                hi_idx as int,
                lo,
                hi,
            ),
            r matches Ok(Some(k)) ==> 0 <= k,
    {
        let (f, file): (&V4Footer, &[u8]) = match (&self.footer, &self.file) {
            (Some(f), Some(v)) => (f, v.as_slice()),
            _ => {
                return Ok(None);
            },
        };
        let c: &C = &self.codec;
        let ghost n = f.row_groups@.len() as int;
        let ghost rows = (lo_idx as int, hi_idx as int);
        let mut start: usize = 0;
        let mut count: usize = 0;
        let mut i: usize = 0;
        while i < f.row_groups.len()
            invariant
                i <= f.row_groups@.len(),
                n == f.row_groups@.len(),
                rows == (lo_idx as int, hi_idx as int),
                f.wf(),
                num_idx < f.schema.columns@.len(),
                self.footer == Some(*f),
                self.file matches Some(v) && v@ == file@,
                *c == self.codec,
                start == rows_before(f.row_groups@, i as int),
                count <= start,
                count_out(*c, *f, file@, num_idx as int, rows, lo, hi, i as int) == Ok::<
                    Option<int>,
                    ScanError,
                >(Some(count as int)),
            decreases f.row_groups@.len() - i,
        {
            let rg_rows: u32 = f.row_groups[i].row_count;
            proof {
                rows_before_monotonic(f.row_groups@, i + 1, n);
            }
            let end: usize = start + rg_rows as usize;
            if rg_rows > 0 && end > lo_idx && start < hi_idx {
                let local_lo: usize = if lo_idx > start {
                    lo_idx - start
                } else {
                    0
                };
                let local_hi: usize = min_u64((hi_idx - start) as u64, rg_rows as u64) as usize;
                let bm: u64 = rg_bitmap_len(rg_rows);
                let s: &[u8] = match get_column_bytes(f, file, num_idx, i) {
                    Err(e) => {
                        proof {
                            count_out_over(
                                *c,
                                *f,
                                file@,
                                num_idx as int,
                                rows,
                                lo,
                                hi,
                                i + 1,
                                n,
                            );
                        }
                        return Err(e);
                    },
                    Ok(Some(s)) if s.len() as u64 >= bm => s,
                    _ => {
                        proof {
                            count_out_over(
                                *c,
                                *f,
                                file@,
                                num_idx as int,
                                rows,
                                lo,
                                hi,
                                i + 1,
                                n,
                            );
                        }
                        return Ok(None);
                    },
                };
                let col: ColumnData = match c.read_column(
                    true,
                    get_tail(s, bm as usize),
                    f.schema.columns[num_idx].1,
                ) {
                    None => {
                        proof {
                            count_out_over(
                                *c,
                                *f,
                                file@,
                                num_idx as int,
                                rows,
                                lo,
                                hi,
                                i + 1,
                                n,
                            );
                        }
                        return Err(ScanError::Codec);
                    },
                    Some((col, _)) => col,
                };
                let fits: bool = match &col {
                    ColumnData::Int64(v) => local_hi <= v.len(),
                    ColumnData::Float64(v) => local_hi <= v.len(),
                    _ => false,
                };
                if !fits {
                    proof {
                        count_out_over(*c, *f, file@, num_idx as int, rows, lo, hi, i + 1, n);
                    }
                    return Ok(None);
                }
                if local_lo < local_hi {
                    count = count + get_count_outside(&col, lo, hi, local_lo, local_hi);
                }
            }
            start = end;
            i = i + 1;
        }
        Ok(Some(count as i64))
    }

    /// The count by way of the prefix range of strings that are in order: the rows outside of the
    /// number range, without those of them in the prefix range.
    pub open spec fn not_count_sorted(
        self,
        num: int,
        low: F64,
        high: F64,
        text: int,
        like: LikeShape,
    ) -> Result<Option<int>, ScanError> {
        match (like, self.footer) {
            (LikeShape::Prefix(p), Some(f)) => match self.prefix_range(text, p) {
                Err(e) => Err(e),
                Ok(None) => Ok(None),
                Ok(Some((lo, hi))) => if hi < lo {
                    Err(ScanError::Corrupt)
                } else {
                    match self.out_in_range(num, 0, f.total_rows(), low, high) {
                        Err(e) => Err(e),
                        Ok(None) => Ok(None),
                        Ok(Some(out)) => match self.out_in_range(num, lo, hi, low, high) {
                            Err(e) => Err(e),
                            Ok(None) => Ok(None),
                            Ok(Some(k)) => Ok(Some(out - k)),
                        },
                    }
                },
            },
            _ => Ok(None),
        }
    }

    /// Counts by way of the prefix range of strings that are in order, where no row is deleted and no
    /// number is missing.
    pub fn try_not_filter_count_sorted(
        &self,
        num_idx: usize,
        lo: F64,
        hi: F64,
        str_idx: usize,
        not_like_kind: &LikeKind,
    ) -> (r: Result<Option<i64>, ScanError>)
        requires
            self.wf(),
            self.footer matches Some(f) ==> num_idx < f.schema.columns@.len(),
        ensures
            count_view(r) == self.not_count_sorted(
                num_idx as int,
                lo,
                hi,
                str_idx as int,
                not_like_kind@,
            ),
    {
        let prefix: &Vec<u8> = match not_like_kind {
            LikeKind::Prefix(p) => p,
            _ => {
                return Ok(None);
            },
        };
        let total: usize = match &self.footer {
            None => {
                return Ok(None);
            },
            Some(f) => match f.count_rows() {
                None => {
                    return Ok(None);
                },
                Some(n) => n,
            },
        };
        let (lo_idx, hi_idx): (usize, usize) = match self.prefix_like_range_sorted(
            str_idx,
            prefix.as_slice(),
        ) {
            Err(e) => {
                return Err(e);
            },
            Ok(None) => {
                return Ok(None);
            },
            Ok(Some(pair)) => pair,
        };
        if hi_idx < lo_idx {
            return Err(ScanError::Corrupt);
        }
        let num_out: i64 = match self.count_age_out_in_range(num_idx, 0, total, lo, hi) {
            Err(e) => {
                return Err(e);
            },
            Ok(None) => {
                return Ok(None);
            },
            Ok(Some(k)) => k,
        };
        match self.count_age_out_in_range(num_idx, lo_idx, hi_idx, lo, hi) {
            Err(e) => Err(e),
            Ok(None) => Ok(None),
            Ok(Some(k)) => Ok(Some(num_out - k)),
        }
    }

    /// What counting rows outside of a number range that do not match a pattern gives: by way of
    /// the order of the strings where they are in order and nothing is missing or deleted, row by row
    /// otherwise. Where the layout does not serve that, there is no answer.
    pub open spec fn not_count(
        self,
        num_col: Seq<char>,
        low: F64,
        high: F64,
        str_col: Seq<char>,
        pattern: Seq<char>,
    ) -> Result<Option<int>, ScanError> {
        match (shape_of(pattern), self.footer) {
            (Some(like), Some(f)) => match (
                f.schema.index_of(num_col),
                f.schema.index_of(str_col),
            ) {
                (Some(num), Some(text)) => {
                    let num_kind = f.schema.kind(num as int);
                    let text_kind = f.schema.kind(text as int);
                    if !(is_int(num_kind) || is_float(num_kind)) || !is_text(text_kind) {
                        Ok(None)
                    } else {
                        let quick = if text_kind is String && like is Prefix && undeleted(f) && (
                        self.file matches Some(file) && no_gaps(f, file@, num as int))
                            && self.column_sorted(text as int) == Ok::<bool, ScanError>(true) {
                            self.not_count_sorted(num as int, low, high, text as int, like)
                        } else {
                            Ok(None)
                        };
                        match (quick, self.file) {
                            (Err(e), _) => Err(e),
                            (Ok(Some(k)), _) => Ok(Some(k)),
                            (Ok(None), None) => Err(ScanError::NotOpen),
                            (Ok(None), Some(file)) => if !all_quick(f, file@, num as int)
                                || !all_quick(f, file@, text as int) {
                                Ok(None)
                            } else {
                                let q = NotSeq {
                                    num: num as int,
                                    num_kind,
                                    text: text as int,
                                    text_kind,
                                    test: range_test(low, high),
                                    like: StrTestSeq::Like(like),
                                };
                                match q.sum(self.codec, f, file@, f.row_groups@.len() as int) {
                                    Err(e) => Err(e),
                                    Ok(k) => Ok(Some(k)),
                                }
                            },
                        }
                    }
                },
                _ => Ok(None),
            },
            _ => Ok(None),
        }
    }

    /// Counts the rows whose number lies outside of `lo..=hi` and whose string does not match the
    /// pattern; rows where one of the two is missing do not count.
    pub fn scan_not_filter_count_mmap(
        &self,
        num_col: &str,
        lo: F64,
        hi: F64,
        str_col: &str,
        pattern: &str,
    ) -> (r: Result<Option<i64>, ScanError>)
        requires
            self.wf(),
        ensures
            count_view(r) == self.not_count(num_col@, lo, hi, str_col@, pattern@),
    {
        let kind: LikeKind = match classify_like_pattern(pattern) {
            None => {
                return Ok(None);
            },
            Some(k) => k,
        };
        let f: &V4Footer = match &self.footer {
            None => {
                return Ok(None);
            },
            Some(f) => f,
        };
        let (num, text): (usize, usize) = match (
            f.schema.get_index(num_col),
            f.schema.get_index(str_col),
        ) {
            (Some(a), Some(b)) => (a, b),
            _ => {
                return Ok(None);
            },
        };
        let num_kind: ColumnType = f.schema.columns[num].1;
        let text_kind: ColumnType = f.schema.columns[text].1;
        if !(num_kind.is_int() || num_kind.is_float()) || !text_kind.is_text() {
            return Ok(None);
        }
        let full: bool = match &self.file {
            None => false,
            Some(v) => matches!(text_kind, ColumnType::String) && matches!(
                kind,
                LikeKind::Prefix(_)
            ) && is_undeleted(f) && has_no_gaps(f, v.as_slice(), num),
        };
        if full && matches!(self.detect_column_sorted(text), Ok(true)) {
            match self.try_not_filter_count_sorted(num, lo, hi, text, &kind) {
                Err(e) => {
                    return Err(e);
                },
                Ok(Some(k)) => {
                    return Ok(Some(k));
                },
                Ok(None) => {},
            }
        }
        let file: &[u8] = match &self.file {
            None => {
                return Err(ScanError::NotOpen);
            },
            Some(v) => v.as_slice(),
        };
        if !are_all_quick(f, file, num) || !are_all_quick(f, file, text) {
            return Ok(None);
        }
        let q: NotQuery = NotQuery {
            num,
            num_kind,
            text,
            text_kind,
            test: NumTest::range(lo, hi),
            like: StrTest::Like(&kind),
        };
        match q.sum(&self.codec, f, file) {
            Err(e) => Err(e),
            Ok(k) => Ok(Some(k as i64)),
        }
    }
}

proof fn count_outside_splits(col: ColumnSeq, low: F64, high: F64, a: int, b: int, c: int)
    requires
        a <= b <= c,
    ensures
        count_outside(col, low, high, a, c) == count_outside(col, low, high, a, b) + count_outside(
            col,
            low,
            high,
            b,
            c,
        ),
    decreases c - b,
{
    if b < c {
        count_outside_splits(col, low, high, a, b, c - 1);
    }
}

proof fn rows_before_natural(groups: Seq<RowGroupMeta>, k: int)
    requires
        0 <= k <= groups.len(),
    ensures
        0 <= rows_before(groups, k),
    decreases k,
{
    if k > 0 {
        rows_before_natural(groups, k - 1);
    }
}

/// Rows outside of a number range that are counted in two adjacent stretches are counted in both
/// together.
pub proof fn law_out_adds_up<C: ColumnCodec>(
    c: C,
    f: V4Footer,
    file: Seq<u8>,
    col: int,
    from: int,
    mid: int,
    to: int,
    low: F64,
    high: F64,
    k: int,
)
    requires
        0 <= from <= mid <= to,
        0 <= k <= f.row_groups@.len(),
        count_out(c, f, file, col, (from, mid), low, high, k) matches Ok(Some(_)),
        count_out(c, f, file, col, (mid, to), low, high, k) matches Ok(Some(_)),
    ensures
        count_out(c, f, file, col, (from, to), low, high, k) == Ok::<Option<int>, ScanError>(
            Some(
                count_out(c, f, file, col, (from, mid), low, high, k)->Ok_0->0 + count_out(
                    c,
                    f,
                    file,
                    col,
                    (mid, to),
                    low,
                    high,
                    k,
                )->Ok_0->0,
            ),
        ),
    decreases k,
{
    if k > 0 {
        law_out_adds_up(c, f, file, col, from, mid, to, low, high, k - 1);
        let n = f.row_groups@[k - 1].row_count as int;
        let start = rows_before(f.row_groups@, k - 1);
        rows_before_natural(f.row_groups@, k - 1);
        if n > 0 && start < mid < start + n && from < start + n && start < to {
            if let Ok(Some(s)) = column_bytes(f, file, col, k - 1) {
                if let Some((v, _)) = c.decoded(true, tail(s, bitmap_len(n)), f.schema.kind(col)) {
                    let (lo, _) = local_range(from, to, start, n);
                    let (_, hi) = local_range(from, to, start, n);
                    count_outside_splits(v, low, high, lo, mid - start, hi);
                }
            }
        }
    }
}

impl<C: ColumnCodec> OnDemandStorage<C> {
    /// The count by way of the prefix range is that of the rows before and behind it that lie outside of
    /// the number range.
    pub proof fn law_sorted_count(self, num: int, low: F64, high: F64, text: int, prefix: Seq<u8>)
        requires
            self.footer is Some,
            self.file is Some,
            self.prefix_range(text, prefix) matches Ok(Some(_)),
            ({
                let all = self.footer->0.total_rows();
                let (lo, hi) = self.prefix_range(text, prefix)->Ok_0->0;
                &&& 0 <= lo <= hi <= all
                &&& self.out_in_range(num, 0, lo, low, high) matches Ok(Some(_))
                &&& self.out_in_range(num, lo, hi, low, high) matches Ok(Some(_))
                &&& self.out_in_range(num, hi, all, low, high) matches Ok(Some(_))
            }),
        ensures
            ({
                let all = self.footer->0.total_rows();
                let (lo, hi) = self.prefix_range(text, prefix)->Ok_0->0;
                self.not_count_sorted(num, low, high, text, LikeShape::Prefix(prefix)) == Ok::<
                    Option<int>,
                    ScanError,
                >(
                    Some(
                        self.out_in_range(num, 0, lo, low, high)->Ok_0->0 + self.out_in_range(
                            num,
                            hi,
                            all,
                            low,
                            high,
                        )->Ok_0->0,
                    ),
                )
            }),
    {
        let f = self.footer->0;
        let n = f.row_groups@.len() as int;
        let (lo, hi) = self.prefix_range(text, prefix)->Ok_0->0;
        let file = self.file->0@;
        law_out_adds_up(self.codec, f, file, num, 0, lo, hi, low, high, n);
        law_out_adds_up(self.codec, f, file, num, 0, hi, f.total_rows(), low, high, n);
    }
}

} // verus!
