//! Scans of string columns: equality, sets of strings and LIKE patterns.

use vstd::prelude::*;
use vstd::utf8::encode_utf8;

use crate::bytes::bitmap_len;
use crate::codec::ColumnCodec;
use crate::column::{DictSeq, StringDictView};
use crate::group::{
    get_stored, get_tail, get_window, id_section, rg_bitmap_len, rg_id_section_len, stored_group,
    tail, window,
};
use crate::model::{
    is_text, rows_before, rows_before_monotonic, ColumnType, RowGroupMeta, ScanError, V4Footer,
    COL_ENCODING_COMPACT_DICTIONARY, COL_ENCODING_PLAIN, RG_COMPRESS_NONE,
};
use crate::numeric::{answer, min2, min_u64, slice_view};
use crate::select::select;
use crate::storage::{max_rows, rows_view, OnDemandStorage};
use crate::text_filter::{equal_index, is_dictionary, select_equal_index, TextQuery, TextQuerySeq};

verus! {

/// Byte `k` of the header of a row group, `default` where the row group ends before it.
pub open spec fn header_byte(meta: RowGroupMeta, file: Seq<u8>, k: int, default: u8) -> u8 {
    if k < meta.data_size {
        file[meta.offset + k]
    } else {
        default
    }
}

/// Whether row group `i` is uncompressed and tagged, with the place of the column on record.
pub open spec fn quick_group(f: V4Footer, file: Seq<u8>, col: int, i: int) -> bool {
    let meta = f.row_groups@[i];
    &&& meta.offset + meta.data_size <= file.len()
    &&& header_byte(meta, file, 28, RG_COMPRESS_NONE) == RG_COMPRESS_NONE
    &&& header_byte(meta, file, 29, 0) >= 1
    &&& f.rcix(i, col) is Some
}

/// Whether that holds of every row group.
pub open spec fn all_quick(f: V4Footer, file: Seq<u8>, col: int) -> bool {
    forall|i: int| 0 <= i < f.row_groups@.len() ==> #[trigger] quick_group(f, file, col, i)
}

/// Tests whether every row group is uncompressed and tagged, with the place of the column on record.
pub fn are_all_quick(f: &V4Footer, file: &[u8], col: usize) -> (r: bool)
    ensures
        r == all_quick(*f, file@, col as int),
{
    let mut i: usize = 0;
    while i < f.row_groups.len()
        invariant
            i <= f.row_groups@.len(),
            forall|k: int| 0 <= k < i ==> #[trigger] quick_group(*f, file@, col as int, k),
        decreases f.row_groups@.len() - i,
    {
        let meta: RowGroupMeta = f.row_groups[i];
        let mut quick: bool = f.column_offset(i, col).is_some() && meta.offset as u128
            + meta.data_size as u128 <= file.len() as u128;
        if quick {
            if meta.data_size > 28 && file[(meta.offset + 28) as usize] != RG_COMPRESS_NONE {
                quick = false;
            } else if meta.data_size <= 29 || file[(meta.offset + 29) as usize] < 1 {
                quick = false;
            }
        }
        assert(quick == quick_group(*f, file@, col as int, i as int));
        if !quick {
            return false;
        }
        i = i + 1;
    }
    true
}

/// The parts of a row group that a scan of one column looks at.
#[verifier::ext_equal]
pub struct QuickSeq {
    pub deleted: Option<Seq<u8>>,
    pub nulls: Seq<u8>,
    pub encoding: u8,
    pub data: Seq<u8>,
}

/// The parts of a row group that a scan of one column looks at.
pub struct QuickColumn<'a> {
    pub deleted: Option<&'a [u8]>,
    pub nulls: &'a [u8],
    pub encoding: u8,
    pub data: &'a [u8],
}

impl<'a> View for QuickColumn<'a> {
    type V = QuickSeq;

    open spec fn view(&self) -> QuickSeq {
        QuickSeq {
            deleted: slice_view(self.deleted),
            nulls: self.nulls@,
            encoding: self.encoding,
            data: self.data@,
        }
    }
}

/// The parts of row group `i` for a column whose place is on record: its deletion bitmap where that
/// is there, the null bitmap of the column, its encoding and its data.
pub open spec fn quick_column(f: V4Footer, file: Seq<u8>, col: int, i: int) -> Option<QuickSeq> {
    let meta = f.row_groups@[i];
    let bm = bitmap_len(meta.row_count as int);
    match (stored_group(meta, file), f.rcix(i, col)) {
        (Ok(s), Some(o)) => {
            let body = tail(s, 32);
            match window(body, o, bm) {
                None => None,
                Some(nulls) => {
                    let bytes = tail(body, o + bm);
                    if bytes.len() == 0 {
                        None
                    } else {
                        Some(
                            QuickSeq {
                                deleted: window(
                                    body,
                                    id_section(meta.row_count as int, s[30]),
                                    bm,
                                ),
                                nulls,
                                encoding: bytes[0],
                                data: tail(bytes, 1),
                            },
                        )
                    }
                },
            }
        },
        _ => None,
    }
}

/// Finds the parts of row group `i`.
pub fn get_quick_column<'a>(f: &V4Footer, file: &'a [u8], col: usize, i: usize) -> (r: Option<
    QuickColumn<'a>,
>)
    requires
        i < f.row_groups@.len(),
    ensures
        match r {
            None => quick_column(*f, file@, col as int, i as int) is None,
            Some(q) => quick_column(*f, file@, col as int, i as int) == Some(q@),
        },
{
    let meta: RowGroupMeta = f.row_groups[i];
    let bm: u64 = rg_bitmap_len(meta.row_count);
    match (get_stored(&meta, file), f.column_offset(i, col)) {
        (Ok(s), Some(o)) => {
            let body: &'a [u8] = get_tail(s, 32);
            match get_window(body, o as u64, bm) {
                None => None,
                Some(nulls) => {
                    let bytes: &'a [u8] = get_tail(body, (o as u64 + bm) as usize);
                    if bytes.len() == 0 {
                        None
                    } else {
                        Some(
                            QuickColumn {
                                deleted: get_window(
                                    body,
                                    rg_id_section_len(meta.row_count, s[30]),
                                    bm,
                                ),
                                nulls,
                                encoding: bytes[0],
                                data: get_tail(bytes, 1),
                            },
                        )
                    }
                },
            }
        },
        _ => None,
    }
}

impl TextQuerySeq {
    /// `acc` with the rows of row group `i` of a dictionary column that is scanned in place. What
    /// cannot be read there has no rows.
    pub open spec fn quick<C: ColumnCodec>(
        self,
        c: C,
        f: V4Footer,
        file: Seq<u8>,
        i: int,
        acc: Seq<usize>,
    ) -> Seq<usize> {
        let meta = f.row_groups@[i];
        if self.too_long_or_short(f.zone(i, self.col, true)) {
            acc
        } else {
            match quick_column(f, file, self.col, i) {
                None => acc,
                Some(q) => if !is_dictionary(ColumnType::StringDict, q.encoding) {
                    acc
                } else {
                    match c.dictionary(q.encoding == COL_ENCODING_COMPACT_DICTIONARY, q.data) {
                        None => acc,
                        Some(d) => match d.find(self.target) {
                            None => acc,
                            Some(k) => if meta.deletion_count > 0 && q.deleted is None {
                                acc
                            } else {
                                select(
                                    equal_index(
                                        d,
                                        k,
                                        if meta.deletion_count > 0 {
                                            q.deleted
                                        } else {
                                            None
                                        },
                                    ),
                                    min2(d.indices.len() as int, meta.row_count as int),
                                    rows_before(f.row_groups@, i),
                                    acc,
                                    self.max,
                                )
                            },
                        },
                    }
                },
            }
        }
    }

    /// The rows of the first `k` row groups, scanned in place.
    pub open spec fn quick_scan<C: ColumnCodec>(
        self,
        c: C,
        f: V4Footer,
        file: Seq<u8>,
        k: int,
    ) -> Seq<usize>
        decreases k,
    {
        if k <= 0 {
            Seq::empty()
        } else {
            self.quick(c, f, file, k - 1, self.quick_scan(c, f, file, k - 1))
        }
    }
}

impl<'a> TextQuery<'a> {
    fn quick<C: ColumnCodec>(
        &self,
        c: &C,
        f: &V4Footer,
        file: &[u8],
        i: usize,
        base: usize,
        acc: &mut Vec<usize>,
    )
        requires
            i < f.row_groups@.len(),
            base == rows_before(f.row_groups@, i as int),
            base + f.row_groups@[i as int].row_count <= usize::MAX,
        ensures
            final(acc)@ == self@.quick(*c, *f, file@, i as int, old(acc)@),
    {
        let meta: RowGroupMeta = f.row_groups[i];
        if self.too_long_or_short(f.zone_map(i, self.col, true)) {
            return ;
        }
        if let Some(q) = get_quick_column(f, file, self.col, i) {
            if q.encoding != COL_ENCODING_PLAIN && q.encoding != COL_ENCODING_COMPACT_DICTIONARY {
                return ;
            }
            if let Some(d) = c.read_dictionary(
                q.encoding == COL_ENCODING_COMPACT_DICTIONARY,
                q.data,
            ) {
                if let Some(k) = d.find_value(self.target) {
                    if meta.deletion_count > 0 && q.deleted.is_none() {
                        return ;
                    }
                    let del: Option<&[u8]> = if meta.deletion_count > 0 {
                        q.deleted
                    } else {
                        None
                    };
                    let n: usize = min_u64(d.indices.len() as u64, meta.row_count as u64) as usize;
                    select_equal_index(&d, k, del, n, base, acc, self.max);
                }
            }
        }
    }

    fn quick_scan<C: ColumnCodec>(&self, c: &C, f: &V4Footer, file: &[u8]) -> (r: Vec<usize>)
        requires
            f.wf(),
        ensures
            r@ == self@.quick_scan(*c, *f, file@, f.row_groups@.len() as int),
    {
        let mut acc: Vec<usize> = Vec::new();
        let mut base: usize = 0;
        let mut i: usize = 0;
        while i < f.row_groups.len()
            invariant
                i <= f.row_groups@.len(),
                f.wf(),
                base == rows_before(f.row_groups@, i as int),
                acc@ == self@.quick_scan(*c, *f, file@, i as int),
            decreases f.row_groups@.len() - i,
        {
            proof {
                rows_before_monotonic(f.row_groups@, i + 1, f.row_groups@.len() as int);
            }
            self.quick(c, f, file, i, base, &mut acc);
            base = base + f.row_groups[i].row_count as usize;
            i = i + 1;
        }
        acc
    }
}

impl<C: ColumnCodec> OnDemandStorage<C> {
    /// The rows whose string equals `target`.
    pub open spec fn string_filter(
        self,
        col_name: Seq<char>,
        target: Seq<u8>,
        limit: Option<usize>,
    ) -> Result<Option<Seq<usize>>, ScanError> {
        match self.footer {
            None => Ok(None),
            Some(f) => match f.schema.index_of(col_name) {
                None => Ok(None),
                Some(col) => {
                    let kind = f.schema.kind(col as int);
                    let n = f.row_groups@.len() as int;
                    let q = TextQuerySeq { col: col as int, target, max: max_rows(limit) };
                    if !is_text(kind) {
                        Err(ScanError::NotAString)
                    } else {
                        match self.file {
                            None => Err(ScanError::NotOpen),
                            Some(file) => if limit is None && n > 1 && kind is StringDict
                                && target.len() > 0 && all_quick(f, file@, col as int) {
                                Ok(Some(q.quick_scan(self.codec, f, file@, n)))
                            } else {
                                answer(q.scan(self.codec, f, file@, n))
                            },
                        }
                    }
                },
            },
        }
    }

    /// Finds the rows whose string equals some bytes.
    pub fn filter_bytes(&self, col_name: &str, target: &[u8], limit: Option<usize>) -> (r: Result<
        Option<Vec<usize>>,
        ScanError,
    >)
        requires
            self.wf(),
        ensures
            rows_view(r) == self.string_filter(col_name@, target@, limit),
    {
        let f: &V4Footer = match &self.footer {
            None => {
                return Ok(None);
            },
            Some(f) => f,
        };
        let col: usize = match f.schema.get_index(col_name) {
            None => {
                return Ok(None);
            },
            Some(i) => i,
        };
        let kind: ColumnType = f.schema.columns[col].1;
        if !kind.is_text() {
            return Err(ScanError::NotAString);
        }
        let file: &[u8] = match &self.file {
            None => {
                return Err(ScanError::NotOpen);
            },
            Some(v) => v.as_slice(),
        };
        let max: usize = match limit {
            None => usize::MAX,
            Some(n) => n,
        };
        let q: TextQuery = TextQuery { col, target, max };
        if limit.is_none() && f.row_groups.len() > 1 && matches!(kind, ColumnType::StringDict)
            && target.len() > 0 && are_all_quick(f, file, col) {
            return Ok(Some(q.quick_scan(&self.codec, f, file)));
        }
        match q.scan(&self.codec, f, file) {
            Err(e) => Err(e),
            Ok(v) => Ok(Some(v)),
        }
    }

    /// Finds the rows whose string equals `target`, in order, up to a limit.
    pub fn scan_string_filter_mmap(&self, col_name: &str, target: &str, limit: Option<usize>) -> (r:
        Result<Option<Vec<usize>>, ScanError>)
        requires
            self.wf(),
        ensures
            rows_view(r) == self.string_filter(col_name@, encode_utf8(target@), limit),
    {
        self.filter_bytes(col_name, target.as_bytes(), limit)
    }
}

/// What one row group says to whether every row has a value: `None` where it cannot tell.
pub open spec fn group_all_equal<C: ColumnCodec>(
    c: C,
    f: V4Footer,
    file: Seq<u8>,
    col: int,
    target: Seq<u8>,
    i: int,
) -> Result<Option<bool>, ScanError> {
    let meta = f.row_groups@[i];
    let rows = meta.row_count as int;
    if rows == 0 {
        Ok(Some(true))
    } else if meta.deletion_count > 0 {
        Ok(None)
    } else {
        match stored_group(meta, file) {
            Err(_) => Err(ScanError::PastEof),
            Ok(s) => if s[28] != RG_COMPRESS_NONE || s[29] < 1 {
                Ok(None)
            } else {
                match quick_column(f, file, col, i) {
                    None => Ok(None),
                    Some(q) => if has_bits(q.nulls) || !is_dictionary(ColumnType::StringDict, q.encoding) {
                        Ok(None)
                    } else {
                        match c.dictionary(q.encoding == COL_ENCODING_COMPACT_DICTIONARY, q.data) {
                            None => Ok(None),
                            Some(d) => if d.indices.len() < rows || d.values.len() == 0 {
                                Ok(None)
                            } else {
                                match d.find(target) {
                                    None => Ok(Some(false)),
                                    Some(k) => Ok(Some(all_index(d, rows, k))),
                                }
                            },
                        }
                    },
                }
            },
        }
    }
}

/// Whether every row of the row groups from `i` on has a value; the first row group that does not
/// say yes decides.
pub open spec fn all_equal_from<C: ColumnCodec>(
    c: C,
    f: V4Footer,
    file: Seq<u8>,
    col: int,
    target: Seq<u8>,
    i: int,
) -> Result<Option<bool>, ScanError>
    decreases f.row_groups@.len() - i,
{
    if i >= f.row_groups@.len() {
        Ok(Some(true))
    } else {
        match group_all_equal(c, f, file, col, target, i) {
            Ok(Some(true)) => all_equal_from(c, f, file, col, target, i + 1),
            other => other,
        }
    }
}

/// Whether a bitmap has a set bit.
pub open spec fn has_bits(s: Seq<u8>) -> bool {
    exists|k: int| 0 <= k < s.len() && s[k] != 0
}

/// Whether the first rows all have an index.
pub open spec fn all_index(d: DictSeq, rows: int, k: int) -> bool {
    forall|row: int| 0 <= row < rows ==> #[trigger] d.indices[row] == k
}

/// Tests whether the first rows all have an index.
fn have_all_index(d: &StringDictView, rows: u32, k: usize) -> (r: bool)
    requires
        rows <= d.indices@.len(),
    ensures
        r == all_index(d@, rows as int, k as int),
{
    let mut row: usize = 0;
    while row < rows as usize
        invariant
            row <= rows,
            rows <= d.indices@.len(),
            forall|j: int| 0 <= j < row ==> #[trigger] d@.indices[j] == k,
        decreases rows - row,
    {
        if d.indices[row] as u64 != k as u64 {
            assert(d@.indices[row as int] != k);
            return false;
        }
        row = row + 1;
    }
    true
}

/// Tests whether a bitmap has a set bit.
pub fn any_set(s: &[u8]) -> (r: bool)
    ensures
        r == has_bits(s@),
{
    let mut i: usize = 0;
    while i < s.len()
        invariant
            i <= s.len(),
            forall|k: int| 0 <= k < i ==> s@[k] == 0,
        decreases s.len() - i,
    {
        if s[i] != 0 {
            return true;
        }
        i = i + 1;
    }
    false
}

fn get_group_all_equal<C: ColumnCodec>(
    c: &C,
    f: &V4Footer,
    file: &[u8],
    col: usize,
    target: &[u8],
    i: usize,
) -> (r: Result<Option<bool>, ScanError>)
    requires
        i < f.row_groups@.len(),
    ensures
        r == group_all_equal(*c, *f, file@, col as int, target@, i as int),
{
    let meta: RowGroupMeta = f.row_groups[i];
    let rows: u32 = meta.row_count;
    if rows == 0 {
        return Ok(Some(true));
    }
    if meta.deletion_count > 0 {
        return Ok(None);
    }
    match get_stored(&meta, file) {
        Err(_) => {
            return Err(ScanError::PastEof);
        },
        Ok(s) => if s[28] != RG_COMPRESS_NONE || s[29] < 1 {
            return Ok(None);
        },
    }
    let q: QuickColumn = match get_quick_column(f, file, col, i) {
        None => {
            return Ok(None);
        },
        Some(q) => q,
    };
    if any_set(q.nulls) || (q.encoding != COL_ENCODING_PLAIN && q.encoding
        != COL_ENCODING_COMPACT_DICTIONARY) {
        return Ok(None);
    }
    let d: StringDictView = match c.read_dictionary(
        q.encoding == COL_ENCODING_COMPACT_DICTIONARY,
        q.data,
    ) {
        None => {
            return Ok(None);
        },
        Some(d) => d,
    };
    if (d.indices.len() as u64) < rows as u64 || d.values.len() == 0 {
        return Ok(None);
    }
    let k: usize = match d.find_value(target) {
        None => {
            return Ok(Some(false));
        },
        Some(k) => k,
    };
    Ok(Some(have_all_index(&d, rows, k)))
}

impl<C: ColumnCodec> OnDemandStorage<C> {
    /// Whether every row of a dictionary column has a value.
    pub open spec fn matches_all(self, col_name: Seq<char>, target: Seq<u8>) -> Result<
        Option<bool>,
        ScanError,
    > {
        match self.footer {
            None => Ok(None),
            Some(f) => match f.schema.index_of(col_name) {
                None => Ok(None),
                Some(col) => if !(f.schema.kind(col as int) is StringDict) {
                    Ok(None)
                } else {
                    match self.file {
                        None => Err(ScanError::NotOpen),
                        Some(file) => all_equal_from(
                            self.codec,
                            f,
                            file@,
                            col as int,
                            target,
                            0,
                        ),
                    }
                },
            },
        }
    }

    /// Tells whether every row of a dictionary column has a value; no answer where the row groups
    /// do not show it at a glance.
    pub fn string_eq_matches_all_mmap(&self, col_name: &str, target: &str) -> (r: Result<
        Option<bool>,
        ScanError,
    >)
        ensures
            r == self.matches_all(col_name@, encode_utf8(target@)),
    {
        let f: &V4Footer = match &self.footer {
            None => {
                return Ok(None);
            },
            Some(f) => f,
        };
        let col: usize = match f.schema.get_index(col_name) {
            None => {
                return Ok(None);
            },
            Some(i) => i,
        };
        if !matches!(f.schema.columns[col].1, ColumnType::StringDict) {
            return Ok(None);
        }
        let file: &[u8] = match &self.file {
            None => {
                return Err(ScanError::NotOpen);
            },
            Some(v) => v.as_slice(),
        };
        let bytes: &[u8] = target.as_bytes();
        let mut i: usize = 0;
        while i < f.row_groups.len()
            invariant
                i <= f.row_groups@.len(),
                all_equal_from(self.codec, *f, file@, col as int, bytes@, 0) == all_equal_from(
                    self.codec,
                    *f,
                    file@,
                    col as int,
                    bytes@,
                    i as int,
                ),
                self.footer == Some(*f),
                self.file matches Some(v) && v@ == file@,
                f.schema.index_of(col_name@) == Some(col),
                f.schema.kind(col as int) is StringDict,
                bytes@ == encode_utf8(target@),
            decreases f.row_groups@.len() - i,
        {
            match get_group_all_equal(&self.codec, f, file, col, bytes, i) {
                Ok(Some(true)) => {},
                other => {
                    return other;
                },
            }
            i = i + 1;
        }
        Ok(Some(true))
    }
}

} // verus!
