//! Scans of string columns for sets of strings.

use vstd::prelude::*;
use vstd::utf8::encode_utf8;

use crate::bytes::bitmap_len;
use crate::codec::ColumnCodec;
use crate::group::{
    get_tail, group_of, id_section, open_group, rg_bitmap_len, rg_id_section_len, tail, walk,
    walk_columns, Group,
};
use crate::model::{
    is_text, rows_before, rows_before_monotonic, ColumnType, RowGroupMeta, ScanError, V4Footer,
    ZoneMap, COL_ENCODING_COMPACT_DICTIONARY, COL_ENCODING_PLAIN, RG_COMPRESS_NONE,
};
use crate::numeric::{encoding_of, get_encoding, min2, min_u64, slice_view};
use crate::order::{ascending_rows, ascending_strings, sort_distinct, sort_strings};
use crate::select::{select, select_adds};
use crate::storage::{max_rows, rows_view, OnDemandStorage};
use crate::text::{
    dict_rows, plain_text, read_plain_text, select_dict, select_text, strings_view, text_rows,
    StrTest, StrTestSeq,
};
use crate::text_filter::is_dictionary;
use crate::text_scan::{
    all_quick, are_all_quick, get_quick_column, quick_column, QuickColumn, QuickSeq,
};

verus! {

/// The bytes of some texts.
pub open spec fn texts_view(values: Seq<String>) -> Seq<Seq<u8>> {
    Seq::new(values.len(), |i: int| encode_utf8(values[i]@))
}

/// The bytes of some texts.
pub(crate) fn text_bytes(values: &[String]) -> (r: Vec<Vec<u8>>)
    ensures
        strings_view(r@) == texts_view(values@),
{
    let mut out: Vec<Vec<u8>> = Vec::with_capacity(values.len());
    let mut i: usize = 0;
    while i < values.len()
        invariant
            i <= values.len(),
            out@.len() == i,
            forall|k: int| 0 <= k < i ==> #[trigger] out@[k]@ == encode_utf8(values@[k]@),
        decreases values.len() - i,
    {
        out.push(vstd::slice::slice_to_vec(values[i].as_str().as_bytes()));
        i = i + 1;
    }
    assert(strings_view(out@) =~= texts_view(values@));
    out
}

/// The length of the shortest of some strings.
pub open spec fn shortest(values: Seq<Seq<u8>>) -> int
    decreases values.len(),
{
    if values.len() <= 1 {
        values[0].len() as int
    } else {
        let m = shortest(values.drop_last());
        if values.last().len() < m {
            values.last().len() as int
        } else {
            m
        }
    }
}

/// The length of the longest of some strings.
pub open spec fn longest(values: Seq<Seq<u8>>) -> int
    decreases values.len(),
{
    if values.len() <= 1 {
        values[0].len() as int
    } else {
        let m = longest(values.drop_last());
        if values.last().len() > m {
            values.last().len() as int
        } else {
            m
        }
    }
}

fn length_range(values: &Vec<Vec<u8>>) -> (r: (usize, usize))
    requires
        values@.len() > 0,
    ensures
        r.0 == shortest(strings_view(values@)),
        r.1 == longest(strings_view(values@)),
{
    let ghost all = strings_view(values@);
    let mut low: usize = values[0].len();
    let mut high: usize = values[0].len();
    let mut i: usize = 1;
    assert(all.take(1)[0] == all[0]);
    while i < values.len()
        invariant
            1 <= i <= values@.len(),
            all == strings_view(values@),
            low == shortest(all.take(i as int)),
            high == longest(all.take(i as int)),
        decreases values@.len() - i,
    {
        let n: usize = values[i].len();
        assert(all.take(i + 1).drop_last() =~= all.take(i as int));
        assert(all.take(i + 1).last() == all[i as int]);
        if n < low {
            low = n;
        }
        if n > high {
            high = n;
        }
        i = i + 1;
    }
    assert(all.take(all.len() as int) =~= all);
    (low, high)
}

/// A scan for a set of strings or a pattern.
pub struct SetQuery<'a> {
    pub col: usize,
    pub dict: bool,
    pub test: StrTest<'a>,
    pub max: usize,
}

/// A scan for a set of strings or a pattern.
pub struct SetQuerySeq {
    pub col: int,
    pub dict: bool,
    pub test: StrTestSeq,
    pub max: int,
}

impl<'a> View for SetQuery<'a> {
    type V = SetQuerySeq;

    open spec fn view(&self) -> SetQuerySeq {
        SetQuerySeq {
            col: self.col as int,
            dict: self.dict,
            test: self.test@,
            max: self.max as int,
        }
    }
}

impl SetQuerySeq {
    /// `acc` with the rows of a column that is scanned in place; what cannot be read has no rows.
    pub open spec fn rows<C: ColumnCodec>(
        self,
        c: C,
        q: QuickSeq,
        del: Option<Seq<u8>>,
        rows: int,
        base: int,
        acc: Seq<usize>,
    ) -> Seq<usize> {
        if !self.dict {
            match plain_text(q.data) {
                Some(t) if q.encoding == COL_ENCODING_PLAIN => select(
                    text_rows(t, self.test, del, Some(q.nulls)),
                    min2(t.count, rows),
                    base,
                    acc,
                    self.max,
                ),
                _ => acc,
            }
        } else if !is_dictionary(ColumnType::StringDict, q.encoding) {
            acc
        } else {
            match c.dictionary(q.encoding == COL_ENCODING_COMPACT_DICTIONARY, q.data) {
                None => acc,
                Some(d) => select(
                    dict_rows(d, self.test, del, Some(q.nulls)),
                    min2(d.indices.len() as int, rows),
                    base,
                    acc,
                    self.max,
                ),
            }
        }
    }

    /// `acc` with the rows of row group `i`. A row group whose deletion bitmap is missing though it
    /// has deletions gives no rows.
    pub open spec fn in_group<C: ColumnCodec>(
        self,
        c: C,
        f: V4Footer,
        file: Seq<u8>,
        i: int,
        base: int,
        acc: Seq<usize>,
    ) -> Seq<usize> {
        let meta = f.row_groups@[i];
        match quick_column(f, file, self.col, i) {
            None => acc,
            Some(q) => if meta.deletion_count > 0 && q.deleted is None {
                acc
            } else {
                self.rows(
                    c,
                    q,
                    if meta.deletion_count > 0 {
                        q.deleted
                    } else {
                        None
                    },
                    meta.row_count as int,
                    base,
                    acc,
                )
            },
        }
    }

    /// The rows of the first `k` row groups whose strings can have the right lengths.
    pub open spec fn in_scan<C: ColumnCodec>(
        self,
        c: C,
        f: V4Footer,
        file: Seq<u8>,
        low: int,
        high: int,
        k: int,
    ) -> Seq<usize>
        decreases k,
    {
        if k <= 0 {
            Seq::empty()
        } else {
            let acc = self.in_scan(c, f, file, low, high, k - 1);
            if acc.len() >= self.max || lengths_miss(f.zone(k - 1, self.col, true), low, high) {
                acc
            } else {
                self.in_group(c, f, file, k - 1, rows_before(f.row_groups@, k - 1), acc)
            }
        }
    }

    /// How many rows of row group `i` pass. A missing deletion bitmap counts as one without
    /// deletions.
    pub open spec fn count_group<C: ColumnCodec>(self, c: C, f: V4Footer, file: Seq<u8>, i: int) -> int {
        let meta = f.row_groups@[i];
        match quick_column(f, file, self.col, i) {
            None => 0,
            Some(q) => self.rows(
                c,
                q,
                if meta.deletion_count > 0 {
                    q.deleted
                } else {
                    None
                },
                meta.row_count as int,
                0,
                Seq::empty(),
            ).len() as int,
        }
    }

    /// How many rows of the first `k` row groups pass.
    pub open spec fn count<C: ColumnCodec>(self, c: C, f: V4Footer, file: Seq<u8>, k: int) -> int
        decreases k,
    {
        if k <= 0 {
            0
        } else {
            self.count(c, f, file, k - 1) + self.count_group(c, f, file, k - 1)
        }
    }
}

/// How the strings of row group `i` are encoded, and whether they stand at a place on record; nothing
/// where there are none or they cannot be found.
pub open spec fn text_layout<C: ColumnCodec>(c: C, f: V4Footer, file: Seq<u8>, col: int, i: int) -> Option<
    (bool, u8),
> {
    let meta = f.row_groups@[i];
    let rows = meta.row_count as int;
    let bm = bitmap_len(rows);
    match group_of(c, meta, file) {
        Ok(g) if rows > 0 => match f.rcix(i, col) {
            Some(o) if g.flag == RG_COMPRESS_NONE && g.version >= 1 => if o + bm <= g.body.len() {
                Some((true, encoding_of(g.version, tail(g.body, o + bm))))
            } else {
                None
            },
            _ => match walk(
                c,
                f.schema,
                g.version >= 1,
                g.body,
                bm,
                0,
                id_section(rows, g.ids) + bm,
                col,
            ) {
                Ok(Some(p)) => Some((false, encoding_of(g.version, tail(g.body, p + bm)))),
                _ => None,
            },
        },
        _ => None,
    }
}

/// Whether strings in an encoding can be counted: indices of a dictionary, plain strings, and, for
/// one string, encoded strings that stand at a place on record.
pub open spec fn countable(kind: ColumnType, one: bool, placed: bool, encoding: u8) -> bool {
    is_dictionary(kind, encoding) || (kind is String && (encoding == COL_ENCODING_PLAIN || (one
        && placed)))
}

/// Whether the strings of row group `i` can be counted, as far as they can be found.
pub open spec fn countable_group<C: ColumnCodec>(
    c: C,
    f: V4Footer,
    file: Seq<u8>,
    col: int,
    one: bool,
    i: int,
) -> bool {
    match text_layout(c, f, file, col, i) {
        None => true,
        Some((placed, encoding)) => countable(f.schema.kind(col), one, placed, encoding),
    }
}

/// Whether the strings of every row group can be counted. `one` stands for a count that looks for one
/// string at a time.
pub open spec fn all_countable<C: ColumnCodec>(
    c: C,
    f: V4Footer,
    file: Seq<u8>,
    col: int,
    one: bool,
) -> bool {
    forall|i: int|
        0 <= i < f.row_groups@.len() ==> #[trigger] countable_group(c, f, file, col, one, i)
}

/// Finds out how the strings of row group `i` are encoded.
fn get_text_layout<C: ColumnCodec>(c: &C, f: &V4Footer, file: &[u8], col: usize, i: usize) -> (r:
    Option<(bool, u8)>)
    requires
        i < f.row_groups@.len(),
        col < f.schema.columns@.len(),
    ensures
        r == text_layout(*c, *f, file@, col as int, i as int),
{
    let meta: RowGroupMeta = f.row_groups[i];
    let rows: u32 = meta.row_count;
    let g: Group = match open_group(c, &meta, file) {
        Err(_) => {
            return None;
        },
        Ok(g) => g,
    };
    if rows == 0 {
        return None;
    }
    let bm: u64 = rg_bitmap_len(rows);
    let body: &[u8] = g.body();
    if g.flag == RG_COMPRESS_NONE && g.version >= 1 {
        if let Some(o) = f.column_offset(i, col) {
            let at: u64 = o as u64 + bm;
            if at > body.len() as u64 {
                return None;
            }
            return Some((true, get_encoding(g.version, get_tail(body, at as usize))));
        }
    }
    let first: u64 = rg_id_section_len(rows, g.ids) + bm;
    match walk_columns(c, &f.schema, g.version >= 1, body, bm, 0, first, col) {
        Ok(Some(p)) => Some((false, get_encoding(g.version, get_tail(body, p + bm as usize)))),
        _ => None,
    }
}

/// Tests whether the strings of every row group can be counted.
fn are_all_countable<C: ColumnCodec>(c: &C, f: &V4Footer, file: &[u8], col: usize, one: bool) -> (r:
    bool)
    requires
        col < f.schema.columns@.len(),
    ensures
        r == all_countable(*c, *f, file@, col as int, one),
{
    let kind: ColumnType = f.schema.columns[col].1;
    let mut i: usize = 0;
    while i < f.row_groups.len()
        invariant
            i <= f.row_groups@.len(),
            col < f.schema.columns@.len(),
            kind == f.schema.kind(col as int),
            forall|k: int|
                0 <= k < i ==> #[trigger] countable_group(*c, *f, file@, col as int, one, k),
        decreases f.row_groups@.len() - i,
    {
        if let Some((placed, encoding)) = get_text_layout(c, f, file, col, i) {
            let dictionary: bool = matches!(kind, ColumnType::StringDict) && (encoding
                == COL_ENCODING_PLAIN || encoding == COL_ENCODING_COMPACT_DICTIONARY);
            let text: bool = matches!(kind, ColumnType::String) && (encoding == COL_ENCODING_PLAIN
                || (one && placed));
            if !dictionary && !text {
                assert(!countable_group(*c, *f, file@, col as int, one, i as int));
                return false;
            }
        }
        i = i + 1;
    }
    true
}

/// Whether the lengths of the strings in a row group lie outside of a range.
pub open spec fn lengths_miss(z: Option<ZoneMap>, low: int, high: int) -> bool {
    match z {
        None => false,
        Some(m) => high < m.min_bits || low > m.max_bits,
    }
}

fn do_lengths_miss(z: Option<ZoneMap>, low: usize, high: usize) -> (r: bool)
    ensures
        r == lengths_miss(z, low as int, high as int),
{
    match z {
        None => false,
        Some(m) => (high as i128) < m.min_bits as i128 || low as i128 > m.max_bits as i128,
    }
}

impl<'a> SetQuery<'a> {
    fn rows<C: ColumnCodec>(
        &self,
        c: &C,
        q: &QuickColumn,
        del: Option<&[u8]>,
        rows: u32,
        base: usize,
        acc: &mut Vec<usize>,
    )
        requires
            base + rows <= usize::MAX,
        ensures
            final(acc)@ == self@.rows(
                *c,
                q@,
                slice_view(del),
                rows as int,
                base as int,
                old(acc)@,
            ),
            old(acc)@.len() <= final(acc)@.len() <= old(acc)@.len() + rows,
    {
        if !self.dict {
            if q.encoding == COL_ENCODING_PLAIN {
                if let Some(t) = read_plain_text(q.data) {
                    let n: usize = min_u64(t.count as u64, rows as u64) as usize;
                    proof {
                        select_adds(
                            text_rows(t@, self.test@, slice_view(del), Some(q.nulls@)),
                            n as int,
                            base as int,
                            acc@,
                            self.max as int,
                        );
                    }
                    select_text(&t, &self.test, del, Some(q.nulls), n, base, acc, self.max);
                }
            }
        } else if q.encoding == COL_ENCODING_PLAIN || q.encoding
            == COL_ENCODING_COMPACT_DICTIONARY {
            if let Some(d) = c.read_dictionary(
                q.encoding == COL_ENCODING_COMPACT_DICTIONARY,
                q.data,
            ) {
                let n: usize = min_u64(d.indices.len() as u64, rows as u64) as usize;
                proof {
                    select_adds(
                        dict_rows(d@, self.test@, slice_view(del), Some(q.nulls@)),
                        n as int,
                        base as int,
                        acc@,
                        self.max as int,
                    );
                }
                select_dict(&d, &self.test, del, Some(q.nulls), n, base, acc, self.max);
            }
        }
    }

    fn in_scan<C: ColumnCodec>(
        &self,
        c: &C,
        f: &V4Footer,
        file: &[u8],
        low: usize,
        high: usize,
    ) -> (r: Vec<usize>)
        requires
            f.wf(),
        ensures
            r@ == self@.in_scan(
                *c,
                *f,
                file@,
                low as int,
                high as int,
                f.row_groups@.len() as int,
            ),
    {
        let mut acc: Vec<usize> = Vec::new();
        let mut base: usize = 0;
        let mut i: usize = 0;
        while i < f.row_groups.len()
            invariant
                i <= f.row_groups@.len(),
                f.wf(),
                base == rows_before(f.row_groups@, i as int),
                acc@ == self@.in_scan(*c, *f, file@, low as int, high as int, i as int),
            decreases f.row_groups@.len() - i,
        {
            let meta: RowGroupMeta = f.row_groups[i];
            proof {
                rows_before_monotonic(f.row_groups@, i + 1, f.row_groups@.len() as int);
            }
            if acc.len() < self.max && !do_lengths_miss(f.zone_map(i, self.col, true), low, high) {
                if let Some(q) = get_quick_column(f, file, self.col, i) {
                    if meta.deletion_count == 0 {
                        self.rows(c, &q, None, meta.row_count, base, &mut acc);
                    } else if q.deleted.is_some() {
                        self.rows(c, &q, q.deleted, meta.row_count, base, &mut acc);
                    }
                }
            }
            base = base + meta.row_count as usize;
            i = i + 1;
        }
        acc
    }

    fn count<C: ColumnCodec>(&self, c: &C, f: &V4Footer, file: &[u8]) -> (r: u64)
        requires
            f.wf(),
        ensures
            r == self@.count(*c, *f, file@, f.row_groups@.len() as int),
            r <= f.total_rows(),
    {
        let mut total: u64 = 0;
        let mut i: usize = 0;
        while i < f.row_groups.len()
            invariant
                i <= f.row_groups@.len(),
                f.wf(),
                total == self@.count(*c, *f, file@, i as int),
                total <= rows_before(f.row_groups@, i as int),
            decreases f.row_groups@.len() - i,
        {
            let meta: RowGroupMeta = f.row_groups[i];
            proof {
                rows_before_monotonic(f.row_groups@, i + 1, f.row_groups@.len() as int);
            }
            let mut found: Vec<usize> = Vec::new();
            if let Some(q) = get_quick_column(f, file, self.col, i) {
                let del: Option<&[u8]> = if meta.deletion_count > 0 {
                    q.deleted
                } else {
                    None
                };
                proof {
                    rows_before_monotonic(f.row_groups@, 0, i as int);
                }
                self.rows(c, &q, del, meta.row_count, 0, &mut found);
            }
            total = total + found.len() as u64;
            i = i + 1;
        }
        total
    }
}

impl<C: ColumnCodec> OnDemandStorage<C> {
    /// The rows of one scan for each of the first `k` strings, one after the other.
    pub open spec fn each_filtered(self, col_name: Seq<char>, values: Seq<Seq<u8>>, k: int) -> Result<
        Seq<usize>,
        ScanError,
    >
        decreases k,
    {
        if k <= 0 {
            Ok(Seq::empty())
        } else {
            match self.each_filtered(col_name, values, k - 1) {
                Err(e) => Err(e),
                Ok(acc) => match self.string_filter(col_name, values[k - 1], None) {
                    Err(e) => Err(e),
                    Ok(None) => Ok(acc),
                    Ok(Some(rows)) => Ok(acc + rows),
                },
            }
        }
    }

    proof fn each_filtered_failed(
        self,
        col_name: Seq<char>,
        values: Seq<Seq<u8>>,
        j: int,
        k: int,
    )
        requires
            0 <= j <= k,
            self.each_filtered(col_name, values, j) is Err,
        ensures
            self.each_filtered(col_name, values, k) == self.each_filtered(col_name, values, j),
        decreases k,
    {
        if j < k {
            self.each_filtered_failed(col_name, values, j, k - 1);
        }
    }

    fn filter_each(&self, col_name: &str, values: &Vec<Vec<u8>>) -> (r: Result<
        Vec<usize>,
        ScanError,
    >)
        requires
            self.wf(),
        ensures
            match r {
                Ok(v) => self.each_filtered(
                    col_name@,
                    strings_view(values@),
                    values@.len() as int,
                ) == Ok::<Seq<usize>, ScanError>(v@),
                Err(e) => self.each_filtered(
                    col_name@,
                    strings_view(values@),
                    values@.len() as int,
                ) == Err::<Seq<usize>, ScanError>(e),
            },
    {
        let ghost all = strings_view(values@);
        let mut acc: Vec<usize> = Vec::new();
        let mut k: usize = 0;
        while k < values.len()
            invariant
                k <= values@.len(),
                self.wf(),
                all == strings_view(values@),
                self.each_filtered(col_name@, all, k as int) == Ok::<Seq<usize>, ScanError>(acc@),
            decreases values@.len() - k,
        {
            match self.filter_bytes(col_name, values[k].as_slice(), None) {
                Err(e) => {
                    proof {
                        self.each_filtered_failed(col_name@, all, k + 1, values@.len() as int);
                    }
                    return Err(e);
                },
                Ok(None) => {},
                Ok(Some(mut rows)) => {
                    acc.append(&mut rows);
                },
            }
            k = k + 1;
        }
        Ok(acc)
    }

    /// The rows whose string is one of some strings.
    pub open spec fn string_in(
        self,
        col_name: Seq<char>,
        values: Seq<Seq<u8>>,
        limit: Option<usize>,
    ) -> Result<Option<Seq<usize>>, ScanError> {
        if values.len() == 0 {
            Ok(Some(Seq::empty()))
        } else if values.len() == 1 {
            self.string_filter(col_name, values[0], limit)
        } else {
            match self.footer {
                None => Ok(None),
                Some(f) => match f.schema.index_of(col_name) {
                    None => Ok(None),
                    Some(col) => {
                        let kind = f.schema.kind(col as int);
                        if !is_text(kind) {
                            Ok(None)
                        } else {
                            match self.file {
                                None => Err(ScanError::NotOpen),
                                Some(file) => if !all_quick(f, file@, col as int) {
                                    match self.each_filtered(
                                        col_name,
                                        values,
                                        values.len() as int,
                                    ) {
                                        Err(e) => Err(e),
                                        Ok(rows) => {
                                            let all = ascending_rows(rows);
                                            Ok(
                                                Some(
                                                    all.take(
                                                        min2(all.len() as int, max_rows(limit)),
                                                    ),
                                                ),
                                            )
                                        },
                                    }
                                } else {
                                    Ok(
                                        Some(
                                            SetQuerySeq {
                                                col: col as int,
                                                dict: kind is StringDict,
                                                test: StrTestSeq::OneOf(values),
                                                max: max_rows(limit),
                                            }.in_scan(
                                                self.codec,
                                                f,
                                                file@,
                                                shortest(values),
                                                longest(values),
                                                f.row_groups@.len() as int,
                                            ),
                                        ),
                                    )
                                },
                            }
                        }
                    },
                },
            }
        }
    }

    /// Finds the rows whose string is one of some strings, in order, up to a limit.
    pub fn scan_string_in_mmap(&self, col_name: &str, values: &[String], limit: Option<usize>) -> (r:
        Result<Option<Vec<usize>>, ScanError>)
        requires
            self.wf(),
        ensures
            rows_view(r) == self.string_in(col_name@, texts_view(values@), limit),
    {
        let strings: Vec<Vec<u8>> = text_bytes(values);
        if strings.len() == 0 {
            return Ok(Some(Vec::new()));
        }
        if strings.len() == 1 {
            assert(strings_view(strings@)[0] == strings@[0]@);
            return self.filter_bytes(col_name, strings[0].as_slice(), limit);
        }
        let f: &V4Footer = match &self.footer {
            None => {
                return Ok(None);
            },
            Some(f) => f,
        };
        let col: usize = match f.schema.get_index(col_name) {
            None => {
                return Ok(None);
            },
            Some(i) => i,
        };
        let kind: ColumnType = f.schema.columns[col].1;
        if !kind.is_text() {
            return Ok(None);
        }
        let file: &[u8] = match &self.file {
            None => {
                return Err(ScanError::NotOpen);
            },
            Some(v) => v.as_slice(),
        };
        let max: usize = match limit {
            None => usize::MAX,
            Some(n) => n,
        };
        if !are_all_quick(f, file, col) {
            return match self.filter_each(col_name, &strings) {
                Err(e) => Err(e),
                Ok(rows) => {
                    let mut all: Vec<usize> = sort_distinct(rows);
                    let ghost full = all@;
                    if max < all.len() {
                        all.truncate(max);
                    }
                    assert(all@ =~= full.take(min2(full.len() as int, max_rows(limit))));
                    Ok(Some(all))
                },
            };
        }
        let (low, high): (usize, usize) = length_range(&strings);
        let q: SetQuery = SetQuery {
            col,
            dict: matches!(kind, ColumnType::StringDict),
            test: StrTest::OneOf(&strings),
            max,
        };
        Ok(Some(q.in_scan(&self.codec, f, file, low, high)))
    }

    /// How many rows have one of some strings. The strings count once each. There is no answer for a
    /// column that does not hold strings, or that holds them in an encoding that cannot be counted.
    pub open spec fn string_in_count(self, col_name: Seq<char>, values: Seq<Seq<u8>>) -> Result<
        Option<int>,
        ScanError,
    > {
        let set = ascending_strings(values);
        if values.len() == 0 {
            Ok(Some(0))
        } else {
            match self.footer {
                None => Ok(None),
                Some(f) => match f.schema.index_of(col_name) {
                    None => Ok(None),
                    Some(col) => {
                        let kind = f.schema.kind(col as int);
                        if !is_text(kind) {
                            Ok(None)
                        } else {
                            match self.file {
                                None => Err(ScanError::NotOpen),
                                Some(file) => if set.len() == 1 || !all_quick(f, file@, col as int) {
                                    match self.each_filtered(col_name, set, set.len() as int) {
                                        Err(e) => Err(e),
                                        Ok(rows) => if all_countable(
                                            self.codec,
                                            f,
                                            file@,
                                            col as int,
                                            true,
                                        ) {
                                            Ok(Some(rows.len() as int))
                                        } else {
                                            Ok(None)
                                        },
                                    }
                                } else if all_countable(self.codec, f, file@, col as int, false) {
                                    Ok(
                                        Some(
                                            SetQuerySeq {
                                                col: col as int,
                                                dict: kind is StringDict,
                                                test: StrTestSeq::OneOf(set),
                                                max: usize::MAX as int,
                                            }.count(
                                                self.codec,
                                                f,
                                                file@,
                                                f.row_groups@.len() as int,
                                            ),
                                        ),
                                    )
                                } else {
                                    Ok(None)
                                },
                            }
                        }
                    },
                },
            }
        }
    }

    /// Counts the rows that have one of some strings. There is no answer for a column that does not
    /// hold strings, or that holds them in an encoding that cannot be counted.
    pub fn count_string_in_set_mmap(&self, col_name: &str, values: &[String]) -> (r: Result<
        Option<i64>,
        ScanError,
    >)
        requires
            self.wf(),
        ensures
            match r {
                Err(e) => self.string_in_count(col_name@, texts_view(values@)) == Err::<
                    Option<int>,
                    ScanError,
                >(e),
                Ok(None) => self.string_in_count(col_name@, texts_view(values@)) == Ok::<
                    Option<int>,
                    ScanError,
                >(None),
                Ok(Some(n)) => self.string_in_count(col_name@, texts_view(values@)) == Ok::<
                    Option<int>,
                    ScanError,
                >(Some(n as int)),
            },
    {
        if values.len() == 0 {
            return Ok(Some(0));
        }
        let given: Vec<Vec<u8>> = text_bytes(values);
        let strings: Vec<Vec<u8>> = sort_strings(&given);
        let ghost set = strings_view(strings@);
        let f: &V4Footer = match &self.footer {
            None => {
                return Ok(None);
            },
            Some(f) => f,
        };
        let col: usize = match f.schema.get_index(col_name) {
            None => {
                return Ok(None);
            },
            Some(i) => i,
        };
        let kind: ColumnType = f.schema.columns[col].1;
        if !kind.is_text() {
            return Ok(None);
        }
        let file: &[u8] = match &self.file {
            None => {
                return Err(ScanError::NotOpen);
            },
            Some(v) => v.as_slice(),
        };
        if strings.len() == 1 || !are_all_quick(f, file, col) {
            return match self.filter_each(col_name, &strings) {
                Err(e) => Err(e),
                Ok(rows) => {
                    proof {
                        self.each_fits(col_name@, texts_view(values@));
                    }
                    if are_all_countable(&self.codec, f, file, col, true) {
                        Ok(Some(rows.len() as i64))
                    } else {
                        Ok(None)
                    }
                },
            };
        }
        if !are_all_countable(&self.codec, f, file, col, false) {
            return Ok(None);
        }
        let q: SetQuery = SetQuery {
            col,
            dict: matches!(kind, ColumnType::StringDict),
            test: StrTest::OneOf(&strings),
            max: usize::MAX,
        };
        Ok(Some(q.count(&self.codec, f, file) as i64))
    }
}

} // verus!
