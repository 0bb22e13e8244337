//! The rows with the longest or shortest strings.

use vstd::prelude::*;

use crate::bytes::bitmap_len;
use crate::codec::ColumnCodec;
use crate::column::{ColumnData, ColumnSeq};
use crate::double::F64;
use crate::group::{
    get_stored, get_tail, get_window, id_section, rg_bitmap_len, rg_id_section_len, stored_group,
    tail, window,
};
use crate::model::{
    is_float, is_int, rows_before, rows_before_monotonic, ColumnType, RowGroupMeta, ScanError,
    V4Footer, COL_ENCODING_PLAIN, RG_COMPRESS_NONE,
};
use crate::not_count::numbers_len;
use crate::numeric::{is_open, min2, min_u64, row_open, slice_view};
use crate::ranking::{different_rows, Candidate, Preference};
use crate::storage::{rows_view, OnDemandStorage};
use crate::text::{plain_text, read_plain_text, PlainText, TextSeq};
use crate::text_scan::{any_set, has_bits, header_byte};
use crate::topk::real_of;

verus! {

/// The number of characters in the bytes `s..e`: bytes that continue a character do not count.
pub open spec fn chars_in(raw: Seq<u8>, s: int, e: int) -> int
    decreases e - s,
{
    if s >= e {
        0
    } else {
        chars_in(raw, s, e - 1) + if 0x80 <= raw[e - 1] <= 0xBF {
            0int
        } else {
            1
        }
    }
}

fn count_chars(raw: &[u8], s: usize, e: usize) -> (r: u64)
    requires
        s <= e <= raw.len(),
    ensures
        r == chars_in(raw@, s as int, e as int),
{
    let mut n: u64 = 0;
    let mut i: usize = s;
    while i < e
        invariant
            s <= i <= e <= raw.len(),
            n == chars_in(raw@, s as int, i as int),
            n <= i - s,
        decreases e - i,
    {
        if !(raw[i] >= 0x80 && raw[i] <= 0xBF) {
            n = n + 1;
        }
        i = i + 1;
    }
    n
}

/// The number in row `i` of a decoded column, as a double.
pub open spec fn number_at(col: ColumnSeq, i: int) -> F64 {
    match col {
        ColumnSeq::Int64(v) => real_of(v[i] as int),
        ColumnSeq::Float64(v) => v[i],
        _ => F64 { bits: 0 },
    }
}

/// The number in row `i` of a decoded column, as a double.
pub fn get_number_at(col: &ColumnData, i: usize) -> (r: F64)
    requires
        numbers_len(col@) matches Some(n) && i < n,
    ensures
        r == number_at(col@, i as int),
{
    match col {
        ColumnData::Int64(v) => F64::from_i64(v[i]),
        ColumnData::Float64(v) => v[i],
        _ => F64::from_bits(0),
    }
}

/// What a row group holds for a ranking by length: the strings, the numbers that decide between
/// strings of one length, and the deletion bitmap.
#[verifier::ext_equal]
pub struct PartsSeq {
    pub text: TextSeq,
    pub ties: Option<ColumnSeq>,
    pub deleted: Option<Seq<u8>>,
}

/// What a row group holds for a ranking by length.
pub struct Parts<'a> {
    pub text: PlainText<'a>,
    pub ties: Option<ColumnData>,
    pub deleted: Option<&'a [u8]>,
}

impl<'a> View for Parts<'a> {
    type V = PartsSeq;

    open spec fn view(&self) -> PartsSeq {
        PartsSeq {
            text: self.text@,
            ties: match self.ties {
                None => None,
                Some(c) => Some(c@),
            },
            deleted: slice_view(self.deleted),
        }
    }
}

impl PartsSeq {
    /// The number that decides in row `i`; 0 where none does.
    pub open spec fn tie(self, i: int) -> F64 {
        match self.ties {
            None => F64 { bits: 0 },
            Some(col) => number_at(col, i),
        }
    }

    /// The candidates among the first `n` rows; `None` where a string ends before it starts.
    /// Deleted rows and strings that end beyond the data are left out.
    pub open spec fn candidates(self, base: int, n: int) -> Option<Seq<Candidate>>
        decreases n,
    {
        if n <= 0 {
            Some(Seq::empty())
        } else {
            match self.candidates(base, n - 1) {
                None => None,
                Some(before) => {
                    let i = n - 1;
                    let t = self.text;
                    if !row_open(self.deleted, None, i) || t.end(i) > t.raw().len() {
                        Some(before)
                    } else if t.start(i) > t.end(i) {
                        None
                    } else {
                        Some(
                            before.push(
                                Candidate {
                                    length: chars_in(t.raw(), t.start(i), t.end(i)) as u64,
                                    value: self.tie(i),
                                    row: (base + i) as usize,
                                },
                            ),
                        )
                    }
                },
            }
        }
    }

    /// Whether there is a number for each of the first `n` rows where numbers decide.
    pub open spec fn covers(self, n: int) -> bool {
        self.ties matches Some(col) ==> (numbers_len(col) matches Some(m) && n <= m)
    }

    proof fn candidates_failed(self, base: int, j: int, n: int)
        requires
            0 <= j <= n,
            self.candidates(base, j) is None,
        ensures
            self.candidates(base, n) is None,
        decreases n,
    {
        if j < n {
            self.candidates_failed(base, j, n - 1);
        }
    }
}

impl<'a> Parts<'a> {
    /// Offers the candidates among the first `n` rows; `false` where a string ends before it starts.
    fn offer(&self, p: Preference, k: usize, base: usize, n: usize, best: &mut Vec<Candidate>) -> (ok:
        bool)
        requires
            0 < k,
            old(best)@.len() <= k,
            self.text.wf(),
            n <= self.text.count,
            self@.covers(n as int),
            base + n <= usize::MAX,
        ensures
            final(best)@.len() <= k,
            ok ==> (self@.candidates(base as int, n as int) matches Some(xs) && final(best)@
                == p.enter_all(old(best)@, xs, k as int)),
            !ok ==> self@.candidates(base as int, n as int) is None,
    {
        let raw: &[u8] = self.text.raw();
        let mut i: usize = 0;
        while i < n
            invariant
                i <= n <= self.text.count,
                0 < k,
                best@.len() <= k,
                self.text.wf(),
                self@.covers(n as int),
                base + n <= usize::MAX,
                raw@ == self.text@.raw(),
                self@.candidates(base as int, i as int) matches Some(xs) && best@ == p.enter_all(
                    old(best)@,
                    xs,
                    k as int,
                ),
            decreases n - i,
        {
            let ghost before = self@.candidates(base as int, i as int)->0;
            let e: usize = self.text.end(i);
            if is_open(self.deleted, None, i) && e <= raw.len() {
                let s: usize = self.text.start(i);
                if s > e {
                    proof {
                        self@.candidates_failed(base as int, i + 1, n as int);
                    }
                    return false;
                }
                let value: F64 = match &self.ties {
                    None => F64::from_bits(0),
                    Some(col) => get_number_at(col, i),
                };
                let x: Candidate = Candidate { length: count_chars(raw, s, e), value, row: base + i };
                proof {
                    assert(before.push(x).drop_last() =~= before);
                }
                p.offer(best, x, k);
            }
            i = i + 1;
        }
        true
    }
}

/// The numbers of a column that decide between strings of one length, `spare` bytes of it at least.
/// Missing numbers do not serve.
pub open spec fn tie_column<C: ColumnCodec>(
    c: C,
    f: V4Footer,
    body: Seq<u8>,
    col: int,
    i: int,
    n: int,
    spare: int,
) -> Result<Option<ColumnSeq>, ScanError> {
    let bm = bitmap_len(f.row_groups@[i].row_count as int);
    match f.rcix(i, col) {
        None => Ok(None),
        Some(o) => if o > body.len() {
            Err(ScanError::Corrupt)
        } else if o + bm + spare > body.len() || has_bits(body.subrange(o, o + bm)) {
            Ok(None)
        } else {
            match c.decoded(true, tail(body, o + bm), f.schema.kind(col)) {
                None => Err(ScanError::Codec),
                Some((v, _)) => match numbers_len(v) {
                    Some(m) if n <= m => Ok(Some(v)),
                    _ => Ok(None),
                },
            }
        },
    }
}

fn get_tie_column<C: ColumnCodec>(
    c: &C,
    f: &V4Footer,
    body: &[u8],
    col: usize,
    i: usize,
    n: usize,
    spare: u64,
) -> (r: Result<Option<ColumnData>, ScanError>)
    requires
        i < f.row_groups@.len(),
        col < f.schema.columns@.len(),
        spare <= 1,
    ensures
        match r {
            Err(e) => tie_column(
                *c,
                *f,
                body@,
                col as int,
                i as int,
                n as int,
                spare as int,
            ) == Err::<Option<ColumnSeq>, ScanError>(e),
            Ok(None) => tie_column(
                *c,
                *f,
                body@,
                col as int,
                i as int,
                n as int,
                spare as int,
            ) == Ok::<Option<ColumnSeq>, ScanError>(None),
            Ok(Some(v)) => tie_column(
                *c,
                *f,
                body@,
                col as int,
                i as int,
                n as int,
                spare as int,
            ) == Ok::<Option<ColumnSeq>, ScanError>(Some(v@)) && (numbers_len(v@) matches Some(m)
                && n <= m),
        },
{
    let bm: u64 = rg_bitmap_len(f.row_groups[i].row_count);
    let o: u64 = match f.column_offset(i, col) {
        None => {
            return Ok(None);
        },
        Some(o) => o as u64,
    };
    if o > body.len() as u64 {
        return Err(ScanError::Corrupt);
    }
    if o + bm + spare > body.len() as u64 {
        return Ok(None);
    }
    match get_window(body, o, bm) {
        Some(w) if !any_set(w) => {},
        _ => {
            return Ok(None);
        },
    }
    match c.read_column(true, get_tail(body, (o + bm) as usize), f.schema.columns[col].1) {
        None => Err(ScanError::Codec),
        Some((v, _)) => {
            let fits: bool = match &v {
                ColumnData::Int64(x) => n <= x.len(),
                ColumnData::Float64(x) => n <= x.len(),
                _ => false,
            };
            if fits {
                Ok(Some(v))
            } else {
                Ok(None)
            }
        },
    }
}

/// What row group `i` holds for a ranking by length. `None` where it is compressed or untagged,
/// where values are missing, where the strings are not plain, or where a part is not there.
pub open spec fn parts_of<C: ColumnCodec>(
    c: C,
    f: V4Footer,
    file: Seq<u8>,
    text: int,
    tie: Option<int>,
    i: int,
    spare: int,
) -> Result<Option<PartsSeq>, ScanError> {
    let meta = f.row_groups@[i];
    let rows = meta.row_count as int;
    let bm = bitmap_len(rows);
    if meta.offset + meta.data_size > file.len() {
        Err(ScanError::PastEof)
    } else {
        match stored_group(meta, file) {
            Err(_) => Ok(None),
            Ok(s) => {
                let body = tail(s, 32);
                let deleted = window(body, id_section(rows, s[30]), bm);
                if s[28] != RG_COMPRESS_NONE || s[29] < 1 || (meta.deletion_count > 0
                    && deleted is None) || f.rcix(i, text) is None {
                    Ok(None)
                } else {
                    let o = f.rcix(i, text)->0;
                    if o > body.len() {
                        Err(ScanError::Corrupt)
                    } else if o + bm + 1 > body.len() || has_bits(body.subrange(o, o + bm))
                        || body[o + bm] != COL_ENCODING_PLAIN {
                        Ok(None)
                    } else {
                        match plain_text(tail(body, o + bm + 1)) {
                            None => Ok(None),
                            Some(t) => {
                                let del = if meta.deletion_count > 0 {
                                    deleted
                                } else {
                                    None
                                };
                                match tie {
                                    None => Ok(
                                        Some(PartsSeq { text: t, ties: None, deleted: del }),
                                    ),
                                    Some(col) => match tie_column(
                                        c,
                                        f,
                                        body,
                                        col,
                                        i,
                                        min2(t.count, rows),
                                        spare,
                                    ) {
                                        Err(e) => Err(e),
                                        Ok(None) => Ok(None),
                                        Ok(Some(v)) => Ok(
                                            Some(
                                                PartsSeq { text: t, ties: Some(v), deleted: del },
                                            ),
                                        ),
                                    },
                                }
                            },
                        }
                    }
                }
            },
        }
    }
}

/// A column number, where there is one.
pub open spec fn column_view(tie: Option<usize>) -> Option<int> {
    match tie {
        None => None,
        Some(i) => Some(i as int),
    }
}

fn get_parts<'a, C: ColumnCodec>(
    c: &C,
    f: &V4Footer,
    file: &'a [u8],
    text: usize,
    tie: Option<usize>,
    i: usize,
    spare: u64,
) -> (r: Result<Option<Parts<'a>>, ScanError>)
    requires
        i < f.row_groups@.len(),
        spare <= 1,
        tie matches Some(t) ==> t < f.schema.columns@.len(),
    ensures
        match r {
            Err(e) => parts_of(
                *c,
                *f,
                file@,
                text as int,
                column_view(tie),
                i as int,
                spare as int,
            ) == Err::<Option<PartsSeq>, ScanError>(e),
            Ok(None) => parts_of(
                *c,
                *f,
                file@,
                text as int,
                column_view(tie),
                i as int,
                spare as int,
            ) == Ok::<Option<PartsSeq>, ScanError>(None),
            Ok(Some(p)) => parts_of(
                *c,
                *f,
                file@,
                text as int,
                column_view(tie),
                i as int,
                spare as int,
            ) == Ok::<Option<PartsSeq>, ScanError>(Some(p@)) && p.text.wf() && p@.covers(
                min2(p@.text.count, f.row_groups@[i as int].row_count as int),
            ),
        },
{
    let meta: RowGroupMeta = f.row_groups[i];
    let bm: u64 = rg_bitmap_len(meta.row_count);
    let s: &'a [u8] = match get_stored(&meta, file) {
        Err(ScanError::PastEof) => {
            return Err(ScanError::PastEof);
        },
        Err(_) => {
            return Ok(None);
        },
        Ok(s) => s,
    };
    let body: &'a [u8] = get_tail(s, 32);
    let deleted: Option<&'a [u8]> = get_window(
        body,
        rg_id_section_len(meta.row_count, s[30]),
        bm,
    );
    if s[28] != RG_COMPRESS_NONE || s[29] < 1 || (meta.deletion_count > 0 && deleted.is_none()) {
        return Ok(None);
    }
    let o: u64 = match f.column_offset(i, text) {
        None => {
            return Ok(None);
        },
        Some(o) => o as u64,
    };
    if o > body.len() as u64 {
        return Err(ScanError::Corrupt);
    }
    if o + bm + 1 > body.len() as u64 {
        return Ok(None);
    }
    match get_window(body, o, bm) {
        Some(w) if !any_set(w) => {},
        _ => {
            return Ok(None);
        },
    }
    let at: usize = (o + bm) as usize;
    if body[at] != COL_ENCODING_PLAIN {
        return Ok(None);
    }
    let t: PlainText<'a> = match read_plain_text(get_tail(body, at + 1)) {
        None => {
            return Ok(None);
        },
        Some(t) => t,
    };
    let del: Option<&'a [u8]> = if meta.deletion_count > 0 {
        deleted
    } else {
        None
    };
    match tie {
        None => Ok(Some(Parts { text: t, ties: None, deleted: del })),
        Some(col) => {
            let n: usize = min_u64(t.count as u64, meta.row_count as u64) as usize;
            match get_tie_column(c, f, body, col, i, n, spare) {
                Err(e) => Err(e),
                Ok(None) => Ok(None),
                Ok(Some(v)) => Ok(Some(Parts { text: t, ties: Some(v), deleted: del })),
            }
        },
    }
}

/// Whether row group `i` can be ranked on its own: uncompressed and tagged, with plain strings and
/// nothing missing in either column.
pub open spec fn rankable(f: V4Footer, file: Seq<u8>, text: int, tie: Option<int>, i: int) -> bool {
    let meta = f.row_groups@[i];
    let bm = bitmap_len(meta.row_count as int);
    &&& meta.offset + meta.data_size <= file.len()
    &&& header_byte(meta, file, 28, RG_COMPRESS_NONE) == RG_COMPRESS_NONE
    &&& header_byte(meta, file, 29, 0) >= 1
    &&& f.rcix(i, text) matches Some(o) && 32 + o + bm + 1 <= meta.data_size && !has_bits(
        file.subrange(meta.offset + 32 + o, meta.offset + 32 + o + bm),
    ) && file[meta.offset + 32 + o + bm] == COL_ENCODING_PLAIN
    &&& tie matches Some(col) ==> (f.rcix(i, col) matches Some(o) && 32 + o + bm <= meta.data_size
        && !has_bits(file.subrange(meta.offset + 32 + o, meta.offset + 32 + o + bm)))
}

fn is_rankable(f: &V4Footer, file: &[u8], text: usize, tie: Option<usize>, i: usize) -> (r: bool)
    requires
        i < f.row_groups@.len(),
    ensures
        r == rankable(*f, file@, text as int, column_view(tie), i as int),
{
    let meta: RowGroupMeta = f.row_groups[i];
    let bm: u64 = rg_bitmap_len(meta.row_count);
    if meta.offset as u128 + meta.data_size as u128 > file.len() as u128 {
        return false;
    }
    if meta.data_size <= 29 || file[(meta.offset + 28) as usize] != RG_COMPRESS_NONE
        || file[(meta.offset + 29) as usize] < 1 {
        return false;
    }
    match f.column_offset(i, text) {
        None => {
            return false;
        },
        Some(o) => {
            if 32 + o as u64 + bm + 1 > meta.data_size {
                return false;
            }
            match get_window(file, meta.offset + 32 + o as u64, bm) {
                Some(w) if !any_set(w) => {},
                _ => {
                    return false;
                },
            }
            if file[(meta.offset + 32 + o as u64 + bm) as usize] != COL_ENCODING_PLAIN {
                return false;
            }
        },
    }
    match tie {
        None => true,
        Some(col) => match f.column_offset(i, col) {
            None => false,
            Some(o) => {
                if 32 + o as u64 + bm > meta.data_size {
                    return false;
                }
                match get_window(file, meta.offset + 32 + o as u64, bm) {
                    Some(w) => !any_set(w),
                    None => false,
                }
            },
        },
    }
}

/// Whether every row group can be ranked on its own.
pub open spec fn all_rankable(f: V4Footer, file: Seq<u8>, text: int, tie: Option<int>) -> bool {
    forall|i: int| 0 <= i < f.row_groups@.len() ==> #[trigger] rankable(f, file, text, tie, i)
}

fn are_all_rankable(f: &V4Footer, file: &[u8], text: usize, tie: Option<usize>) -> (r: bool)
    ensures
        r == all_rankable(*f, file@, text as int, column_view(tie)),
{
    let mut i: usize = 0;
    while i < f.row_groups.len()
        invariant
            i <= f.row_groups@.len(),
            forall|k: int|
                0 <= k < i ==> #[trigger] rankable(*f, file@, text as int, column_view(tie), k),
        decreases f.row_groups@.len() - i,
    {
        if !is_rankable(f, file, text, tie, i) {
            return false;
        }
        i = i + 1;
    }
    true
}

/// The candidates of row group `i`.
pub open spec fn group_candidates<C: ColumnCodec>(
    c: C,
    f: V4Footer,
    file: Seq<u8>,
    text: int,
    tie: Option<int>,
    i: int,
    spare: int,
) -> Result<Option<Seq<Candidate>>, ScanError> {
    match parts_of(c, f, file, text, tie, i, spare) {
        Err(e) => Err(e),
        Ok(None) => Ok(None),
        Ok(Some(p)) => match p.candidates(
            rows_before(f.row_groups@, i),
            min2(p.text.count, f.row_groups@[i].row_count as int),
        ) {
            None => Err(ScanError::Corrupt),
            Some(xs) => Ok(Some(xs)),
        },
    }
}

/// A ranking by length: the columns, the order and how many rows are asked for.
pub struct LengthQuery {
    pub text: usize,
    pub tie: Option<usize>,
    pub order: Preference,
    pub k: usize,
}

impl LengthQuery {
    /// The best of the first `n` row groups, taken one after the other.
    pub open spec fn walked<C: ColumnCodec>(self, c: C, f: V4Footer, file: Seq<u8>, n: int) -> Result<
        Option<Seq<Candidate>>,
        ScanError,
    >
        decreases n,
    {
        if n <= 0 {
            Ok(Some(Seq::empty()))
        } else {
            match self.walked(c, f, file, n - 1) {
                Ok(Some(best)) => if f.row_groups@[n - 1].row_count == 0 {
                    Ok(Some(best))
                } else {
                    match group_candidates(
                        c,
                        f,
                        file,
                        self.text as int,
                        column_view(self.tie),
                        n - 1,
                        1,
                    ) {
                        Ok(Some(xs)) => Ok(Some(self.order.enter_all(best, xs, self.k as int))),
                        other => other,
                    }
                },
                other => other,
            }
        }
    }

    /// The best of each of the first `n` row groups, one after the other.
    pub open spec fn each<C: ColumnCodec>(self, c: C, f: V4Footer, file: Seq<u8>, n: int) -> Result<
        Option<Seq<Candidate>>,
        ScanError,
    >
        decreases n,
    {
        if n <= 0 {
            Ok(Some(Seq::empty()))
        } else {
            match self.each(c, f, file, n - 1) {
                Ok(Some(before)) => match group_candidates(
                    c,
                    f,
                    file,
                    self.text as int,
                    column_view(self.tie),
                    n - 1,
                    0,
                ) {
                    Ok(Some(xs)) => Ok(
                        Some(before + self.order.enter_all(Seq::empty(), xs, self.k as int)),
                    ),
                    other => other,
                },
                other => other,
            }
        }
    }

    /// The best of all row groups: where every one of them can be ranked on its own, the best of
    /// the best of each.
    pub open spec fn best<C: ColumnCodec>(self, c: C, f: V4Footer, file: Seq<u8>) -> Result<
        Option<Seq<Candidate>>,
        ScanError,
    > {
        let n = f.row_groups@.len() as int;
        if n > 1 && all_rankable(f, file, self.text as int, column_view(self.tie)) {
            match self.each(c, f, file, n) {
                Ok(Some(xs)) => Ok(Some(self.order.enter_all(Seq::empty(), xs, self.k as int))),
                other => other,
            }
        } else {
            self.walked(c, f, file, n)
        }
    }

    proof fn walked_over<C: ColumnCodec>(self, c: C, f: V4Footer, file: Seq<u8>, j: int, n: int)
        requires
            0 <= j <= n,
            !(self.walked(c, f, file, j) matches Ok(Some(_))),
        ensures
            self.walked(c, f, file, n) == self.walked(c, f, file, j),
        decreases n,
    {
        if j < n {
            self.walked_over(c, f, file, j, n - 1);
        }
    }

    proof fn each_over<C: ColumnCodec>(self, c: C, f: V4Footer, file: Seq<u8>, j: int, n: int)
        requires
            0 <= j <= n,
            !(self.each(c, f, file, j) matches Ok(Some(_))),
        ensures
            self.each(c, f, file, n) == self.each(c, f, file, j),
        decreases n,
    {
        if j < n {
            self.each_over(c, f, file, j, n - 1);
        }
    }

    /// Whether the query fits the catalogue.
    pub open spec fn wf(self, f: V4Footer) -> bool {
        &&& 0 < self.k
        &&& f.wf()
        &&& self.tie matches Some(t) ==> t < f.schema.columns@.len()
    }

    fn offer_group<C: ColumnCodec>(
        &self,
        c: &C,
        f: &V4Footer,
        file: &[u8],
        i: usize,
        base: usize,
        spare: u64,
        best: &mut Vec<Candidate>,
    ) -> (r: Result<bool, ScanError>)
        requires
            self.wf(*f),
            i < f.row_groups@.len(),
            spare <= 1,
            base == rows_before(f.row_groups@, i as int),
            base + f.row_groups@[i as int].row_count <= usize::MAX,
            old(best)@.len() <= self.k,
        ensures
            final(best)@.len() <= self.k,
            match r {
                Err(e) => group_candidates(
                    *c,
                    *f,
                    file@,
                    self.text as int,
                    column_view(self.tie),
                    i as int,
                    spare as int,
                ) == Err::<Option<Seq<Candidate>>, ScanError>(e),
                Ok(false) => group_candidates(
                    *c,
                    *f,
                    file@,
                    self.text as int,
                    column_view(self.tie),
                    i as int,
                    spare as int,
                ) == Ok::<Option<Seq<Candidate>>, ScanError>(None),
                Ok(true) => group_candidates(
                    *c,
                    *f,
                    file@,
                    self.text as int,
                    column_view(self.tie),
                    i as int,
                    spare as int,
                ) matches Ok(Some(xs)) && final(best)@ == self.order.enter_all(
                    old(best)@,
                    xs,
                    self.k as int,
                ),
            },
    {
        match get_parts(c, f, file, self.text, self.tie, i, spare) {
            Err(e) => Err(e),
            Ok(None) => Ok(false),
            Ok(Some(p)) => {
                let n: usize = min_u64(p.text.count as u64, f.row_groups[i].row_count as u64) as usize;
                if p.offer(self.order, self.k, base, n, best) {
                    Ok(true)
                } else {
                    Err(ScanError::Corrupt)
                }
            },
        }
    }

    fn walk_groups<C: ColumnCodec>(&self, c: &C, f: &V4Footer, file: &[u8]) -> (r: Result<
        Option<Vec<Candidate>>,
        ScanError,
    >)
        requires
            self.wf(*f),
        ensures
            candidates_view(r) == self.walked(*c, *f, file@, f.row_groups@.len() as int),
    {
        let ghost total = f.row_groups@.len() as int;
        let mut best: Vec<Candidate> = Vec::new();
        let mut base: usize = 0;
        let mut i: usize = 0;
        while i < f.row_groups.len()
            invariant
                i <= f.row_groups@.len(),
                total == f.row_groups@.len(),
                self.wf(*f),
                base == rows_before(f.row_groups@, i as int),
                best@.len() <= self.k,
                self.walked(*c, *f, file@, i as int) == Ok::<Option<Seq<Candidate>>, ScanError>(
                    Some(best@),
                ),
            decreases f.row_groups@.len() - i,
        {
            let rows: u32 = f.row_groups[i].row_count;
            proof {
                rows_before_monotonic(f.row_groups@, i + 1, total);
            }
            if rows > 0 {
                match self.offer_group(c, f, file, i, base, 1, &mut best) {
                    Err(e) => {
                        proof {
                            self.walked_over(*c, *f, file@, i + 1, total);
                        }
                        return Err(e);
                    },
                    Ok(false) => {
                        proof {
                            self.walked_over(*c, *f, file@, i + 1, total);
                        }
                        return Ok(None);
                    },
                    Ok(true) => {},
                }
            }
            base = base + rows as usize;
            i = i + 1;
        }
        Ok(Some(best))
    }

    fn rank_each<C: ColumnCodec>(&self, c: &C, f: &V4Footer, file: &[u8]) -> (r: Result<
        Option<Vec<Candidate>>,
        ScanError,
    >)
        requires
            self.wf(*f),
        ensures
            candidates_view(r) == self.each(*c, *f, file@, f.row_groups@.len() as int),
    {
        let ghost total = f.row_groups@.len() as int;
        let mut all: Vec<Candidate> = Vec::new();
        let mut base: usize = 0;
        let mut i: usize = 0;
        while i < f.row_groups.len()
            invariant
                i <= f.row_groups@.len(),
                total == f.row_groups@.len(),
                self.wf(*f),
                base == rows_before(f.row_groups@, i as int),
                self.each(*c, *f, file@, i as int) == Ok::<Option<Seq<Candidate>>, ScanError>(
                    Some(all@),
                ),
            decreases f.row_groups@.len() - i,
        {
            let rows: u32 = f.row_groups[i].row_count;
            proof {
                rows_before_monotonic(f.row_groups@, i + 1, total);
            }
            let mut best: Vec<Candidate> = Vec::new();
            match self.offer_group(c, f, file, i, base, 0, &mut best) {
                Err(e) => {
                    proof {
                        self.each_over(*c, *f, file@, i + 1, total);
                    }
                    return Err(e);
                },
                Ok(false) => {
                    proof {
                        self.each_over(*c, *f, file@, i + 1, total);
                    }
                    return Ok(None);
                },
                Ok(true) => {},
            }
            all.append(&mut best);
            base = base + rows as usize;
            i = i + 1;
        }
        Ok(Some(all))
    }

    fn run<C: ColumnCodec>(&self, c: &C, f: &V4Footer, file: &[u8]) -> (r: Result<
        Option<Vec<Candidate>>,
        ScanError,
    >)
        requires
            self.wf(*f),
        ensures
            candidates_view(r) == self.best(*c, *f, file@),
    {
        if !(f.row_groups.len() > 1 && are_all_rankable(f, file, self.text, self.tie)) {
            return self.walk_groups(c, f, file);
        }
        match self.rank_each(c, f, file) {
            Err(e) => Err(e),
            Ok(None) => Ok(None),
            Ok(Some(all)) => {
                let mut best: Vec<Candidate> = Vec::new();
                let mut i: usize = 0;
                while i < all.len()
                    invariant
                        i <= all@.len(),
                        self.wf(*f),
                        best@.len() <= self.k,
                        best@ == self.order.enter_all(
                            Seq::empty(),
                            all@.take(i as int),
                            self.k as int,
                        ),
                    decreases all@.len() - i,
                {
                    proof {
                        assert(all@.take(i + 1).drop_last() =~= all@.take(i as int));
                    }
                    self.order.offer(&mut best, all[i], self.k);
                    i = i + 1;
                }
                assert(all@.take(all@.len() as int) =~= all@);
                Ok(Some(best))
            },
        }
    }
}

/// Candidates as a sequence.
pub open spec fn candidates_view(r: Result<Option<Vec<Candidate>>, ScanError>) -> Result<
    Option<Seq<Candidate>>,
    ScanError,
> {
    match r {
        Err(e) => Err(e),
        Ok(None) => Ok(None),
        Ok(Some(v)) => Ok(Some(v@)),
    }
}

/// The rows of candidates.
pub open spec fn rows_of(best: Seq<Candidate>) -> Seq<usize> {
    Seq::new(best.len(), |i: int| best[i].row)
}

/// The column that decides between strings of one length: `Some(None)` where none is asked for,
/// `None` where the one that is asked for is not there or holds no numbers.
pub open spec fn tie_index(f: V4Footer, tie_col: Option<Seq<char>>) -> Option<Option<usize>> {
    match tie_col {
        None => Some(None),
        Some(name) => match f.schema.index_of(name) {
            None => None,
            Some(i) => if is_int(f.schema.kind(i as int)) || is_float(f.schema.kind(i as int)) {
                Some(Some(i))
            } else {
                None
            },
        },
    }
}

/// A name, where there is one.
pub open spec fn name_view(name: Option<&str>) -> Option<Seq<char>> {
    match name {
        None => None,
        Some(s) => Some(s@),
    }
}

impl<C: ColumnCodec> OnDemandStorage<C> {
    /// What asking for the rows with the longest or shortest strings gives.
    pub open spec fn top_k_lengths(
        self,
        str_col: Seq<char>,
        tie_col: Option<Seq<char>>,
        k: usize,
        length_desc: bool,
        tie_desc: bool,
    ) -> Result<Option<Seq<usize>>, ScanError> {
        if k == 0 {
            Ok(Some(Seq::empty()))
        } else {
            match self.footer {
                None => Ok(None),
                Some(f) => match (f.schema.index_of(str_col), tie_index(f, tie_col)) {
                    (Some(text), Some(tie)) => if !(f.schema.kind(text as int) is String) {
                        Ok(None)
                    } else {
                        match self.file {
                            None => Err(ScanError::NotOpen),
                            Some(file) => {
                                let q = LengthQuery {
                                    text,
                                    tie,
                                    order: Preference::Length {
                                        descending: length_desc,
                                        tie_descending: tie_desc,
                                    },
                                    k,
                                };
                                match q.best(self.codec, f, file@) {
                                    Err(e) => Err(e),
                                    Ok(None) => Ok(None),
                                    Ok(Some(best)) => Ok(Some(rows_of(best))),
                                }
                            },
                        }
                    },
                    _ => Ok(None),
                },
            }
        }
    }

    /// Finds the `k` rows with the longest or shortest strings, counted in characters; among
    /// strings of one length a number decides, then the position.
    pub fn scan_top_k_by_length_mmap(
        &self,
        str_col: &str,
        tie_col: Option<&str>,
        k: usize,
        length_desc: bool,
        tie_desc: bool,
    ) -> (r: Result<Option<Vec<usize>>, ScanError>)
        requires
            self.wf(),
        ensures
            rows_view(r) == self.top_k_lengths(
                str_col@,
                name_view(tie_col),
                k,
                length_desc,
                tie_desc,
            ),
    {
        if k == 0 {
            let none: Vec<usize> = Vec::new();
            return Ok(Some(none));
        }
        let f: &V4Footer = match &self.footer {
            None => {
                return Ok(None);
            },
            Some(f) => f,
        };
        let text: usize = match f.schema.get_index(str_col) {
            None => {
                return Ok(None);
            },
            Some(i) => i,
        };
        let tie: Option<usize> = match tie_col {
            None => None,
            Some(name) => match f.schema.get_index(name) {
                None => {
                    return Ok(None);
                },
                Some(i) => {
                    let kind: ColumnType = f.schema.columns[i].1;
                    if !(kind.is_int() || kind.is_float()) {
                        return Ok(None);
                    }
                    Some(i)
                },
            },
        };
        if !matches!(f.schema.columns[text].1, ColumnType::String) {
            return Ok(None);
        }
        let file: &[u8] = match &self.file {
            None => {
                return Err(ScanError::NotOpen);
            },
            Some(v) => v.as_slice(),
        };
        let q: LengthQuery = LengthQuery {
            text,
            tie,
            order: Preference::Length { descending: length_desc, tie_descending: tie_desc },
            k,
        };
        match q.run(&self.codec, f, file) {
            Err(e) => Err(e),
            Ok(None) => Ok(None),
            Ok(Some(best)) => {
                let mut out: Vec<usize> = Vec::with_capacity(best.len());
                let mut j: usize = 0;
                while j < best.len()
                    invariant
                        j <= best@.len(),
                        out@ =~= rows_of(best@).take(j as int),
                    decreases best@.len() - j,
                {
                    out.push(best[j].row);
                    j = j + 1;
                }
                assert(out@ =~= rows_of(best@));
                Ok(Some(out))
            },
        }
    }
}

impl PartsSeq {
    /// The candidates of a row group stand in the order of their rows.
    proof fn candidate_rows(self, base: int, n: int)
        requires
            0 <= base,
            base + n <= usize::MAX,
        ensures
            self.candidates(base, n) matches Some(xs) ==> ascending_from(xs, base, base + n),
        decreases n,
    {
        if n > 0 {
            self.candidate_rows(base, n - 1);
        }
    }
}

/// Whether candidates stand in the order of their rows, all of which lie in `low..high`.
pub open spec fn ascending_from(xs: Seq<Candidate>, low: int, high: int) -> bool {
    &&& forall|i: int| 0 <= i < xs.len() ==> low <= (#[trigger] xs[i]).row < high
    &&& forall|i: int, j: int|
        0 <= i < j < xs.len() ==> (#[trigger] xs[i]).row < (#[trigger] xs[j]).row
}

impl LengthQuery {
    /// The candidates of the first `n` row groups.
    pub open spec fn asked<C: ColumnCodec>(self, c: C, f: V4Footer, file: Seq<u8>, n: int) -> Seq<
        Candidate,
    >
        decreases n,
    {
        if n <= 0 {
            Seq::empty()
        } else {
            let before = self.asked(c, f, file, n - 1);
            match group_candidates(
                c,
                f,
                file,
                self.text as int,
                column_view(self.tie),
                n - 1,
                0,
            ) {
                Ok(Some(xs)) => before + xs,
                _ => before,
            }
        }
    }

    proof fn shared_upto<C: ColumnCodec>(self, c: C, f: V4Footer, file: Seq<u8>, n: int)
        requires
            0 < self.k,
            f.wf(),
            self.order is Length,
            0 <= n <= f.row_groups@.len(),
            self.each(c, f, file, n) matches Ok(Some(_)),
            self.walked(c, f, file, n) matches Ok(Some(_)),
            Preference::comparable(self.asked(c, f, file, n)),
        ensures
            ({
                let all = self.asked(c, f, file, n);
                let xs = self.each(c, f, file, n)->Ok_0->0;
                let best = self.walked(c, f, file, n)->Ok_0->0;
                &&& ascending_from(all, 0, rows_before(f.row_groups@, n))
                &&& Preference::comparable(xs)
                &&& best == self.order.enter_all(Seq::empty(), all, self.k as int)
                &&& best == self.order.enter_all(Seq::empty(), xs, self.k as int)
                &&& self.order.is_best(best, all.to_multiset(), self.k as int)
            }),
        decreases n,
    {
        let k = self.k as int;
        if n == 0 {
            self.order.law_best(Seq::empty(), k);
        } else {
            let before = self.asked(c, f, file, n - 1);
            let all = self.asked(c, f, file, n);
            let done = self.each(c, f, file, n - 1)->Ok_0->0;
            let own = group_candidates(
                c,
                f,
                file,
                self.text as int,
                column_view(self.tie),
                n - 1,
                0,
            )->Ok_0->0;
            assert(all == before + own);
            assert(Preference::comparable(before)) by {
                assert forall|i: int| 0 <= i < before.len() implies !crate::double::is_nan(
                    (#[trigger] before[i]).value.bits,
                ) by {
                    assert(all[i] == before[i]);
                }
            }
            assert(Preference::comparable(own)) by {
                assert forall|i: int| 0 <= i < own.len() implies !crate::double::is_nan(
                    (#[trigger] own[i]).value.bits,
                ) by {
                    assert(all[before.len() + i] == own[i]);
                }
            }
            self.shared_upto(c, f, file, n - 1);
            let base = rows_before(f.row_groups@, n - 1);
            let rows = f.row_groups@[n - 1].row_count as int;
            rows_before_monotonic(f.row_groups@, 0, n - 1);
            rows_before_monotonic(f.row_groups@, n, f.row_groups@.len() as int);
            let p = parts_of(
                c,
                f,
                file,
                self.text as int,
                column_view(self.tie),
                n - 1,
                0,
            )->Ok_0->0;
            p.candidate_rows(base, min2(p.text.count, rows));
            assert forall|i: int, j: int| 0 <= i < j < all.len() implies (#[trigger] all[i]).row
                < (#[trigger] all[j]).row by {
                if j < before.len() {
                    assert(before[i].row < before[j].row);
                } else if i >= before.len() {
                    assert(own[i - before.len()].row < own[j - before.len()].row);
                } else {
                    assert(before[i].row < base <= own[j - before.len()].row);
                }
            }
            assert forall|i: int| 0 <= i < all.len() implies 0 <= (#[trigger] all[i]).row
                < rows_before(f.row_groups@, n) by {
                if i < before.len() {
                    assert(before[i].row < base);
                } else {
                    assert(own[i - before.len()].row < base + rows);
                }
            }
            assert(different_rows(all));
            self.order.law_best_of_best(done, before, own, k);
            self.order.enter_all_joined(Seq::empty(), before, own, k);
            self.order.keeps_numbers(own, k);
        }
    }

    /// Ranking each row group on its own and then the best of each gives what ranking all rows one
    /// after the other gives, where both can be done and every deciding value is a number.
    pub proof fn law_ranked_apart<C: ColumnCodec>(self, c: C, f: V4Footer, file: Seq<u8>)
        requires
            0 < self.k,
            f.wf(),
            self.order is Length,
            self.each(c, f, file, f.row_groups@.len() as int) matches Ok(Some(_)),
            self.walked(c, f, file, f.row_groups@.len() as int) matches Ok(Some(_)),
            Preference::comparable(self.asked(c, f, file, f.row_groups@.len() as int)),
        ensures
            self.best(c, f, file) == self.walked(c, f, file, f.row_groups@.len() as int),
            self.best(c, f, file) matches Ok(Some(best)) && self.order.is_best(
                best,
                self.asked(c, f, file, f.row_groups@.len() as int).to_multiset(),
                self.k as int,
            ),
    {
        self.shared_upto(c, f, file, f.row_groups@.len() as int);
    }
}

} // verus!
