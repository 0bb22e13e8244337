//! Equality scans of string columns.

use vstd::prelude::*;
use vstd::slice::slice_subrange;

use crate::bytes::{
    binary_search_u32_le, bitmap_len, search_words, u32_le, u32_le_at,
};
use crate::codec::ColumnCodec;
use crate::column::{ColumnData, ColumnSeq, DictSeq, StringDictView};
use crate::group::{
    get_tail, get_window, group_of, id_section, open_group, rg_bitmap_len, rg_id_section_len, tail,
    walk, walk_columns, window, Group, GroupSeq,
};
use crate::model::{
    bytes_eq, rows_before, rows_before_monotonic, ColumnType, OnDemandSchema, RowGroupMeta,
    ScanError, V4Footer, ZoneMap, COL_ENCODING_COMPACT_DICTIONARY, COL_ENCODING_PLAIN,
    RG_COMPRESS_NONE,
};
use crate::numeric::{
    encoding_of, get_encoding, get_tag_len, is_open, min2, min_u64, outcome, row_open, slice_view,
    tag_len,
};
use crate::outside::occurs_at;
use crate::select::{select, select_checked, select_rows, select_rows_checked};
use crate::text::{plain_text, read_plain_text, PlainText, TextSeq};

verus! {

/// `acc` followed by `base` plus what `pick` gives for the positions below `n`, in order, as far as
/// the whole stays within `max` entries.
pub open spec fn sift(
    pick: spec_fn(int) -> Option<int>,
    n: int,
    base: int,
    acc: Seq<usize>,
    max: int,
) -> Seq<usize>
    decreases n,
{
    if n <= 0 {
        acc
    } else {
        let before = sift(pick, n - 1, base, acc, max);
        match pick(n - 1) {
            Some(row) if before.len() < max => before.push((base + row) as usize),
            _ => before,
        }
    }
}

/// Positions that give nothing change nothing.
proof fn sift_skip(
    pick: spec_fn(int) -> Option<int>,
    j: int,
    k: int,
    base: int,
    acc: Seq<usize>,
    max: int,
)
    requires
        0 <= j <= k,
        forall|p: int| j <= p < k ==> #[trigger] pick(p) is None,
    ensures
        sift(pick, k, base, acc, max) == sift(pick, j, base, acc, max),
    decreases k,
{
    if j < k {
        sift_skip(pick, j, k - 1, base, acc, max);
        assert(pick(k - 1) is None);
    }
}

/// A full result takes nothing more.
proof fn sift_full(
    pick: spec_fn(int) -> Option<int>,
    j: int,
    k: int,
    base: int,
    acc: Seq<usize>,
    max: int,
)
    requires
        0 <= j <= k,
        sift(pick, j, base, acc, max).len() >= max,
    ensures
        sift(pick, k, base, acc, max) == sift(pick, j, base, acc, max),
    decreases k,
{
    if j < k {
        sift_full(pick, j, k - 1, base, acc, max);
    }
}

/// The row whose value is the occurrence of `target` at position `p` of the data: the row that a
/// search finds to start there, if it ends with the occurrence, is below `n` and is open. Offsets
/// are words, so positions count modulo their range.
pub open spec fn row_at(
    t: TextSeq,
    target: Seq<u8>,
    n: int,
    del: Option<Seq<u8>>,
    nulls: Seq<u8>,
    p: int,
) -> Option<int> {
    if !occurs_at(t.raw(), target, p) {
        None
    } else {
        match search_words(t.offsets, t.count, (p % 0x1_0000_0000) as u32) {
            None => None,
            Some(row) => {
                let end = if (row + 1) * 4 + 4 <= t.offsets.len() {
                    u32_le(t.offsets, (row + 1) * 4) as int
                } else {
                    0
                };
                if end - p == target.len() && row < n && row_open(del, Some(nulls), row as int) {
                    Some(row as int)
                } else {
                    None
                }
            },
        }
    }
}

/// The rows by the position at which their value occurs in the data.
pub open spec fn rows_by_position(
    t: TextSeq,
    target: Seq<u8>,
    n: int,
    del: Option<Seq<u8>>,
    nulls: Seq<u8>,
) -> spec_fn(int) -> Option<int> {
    |p: int| row_at(t, target, n, del, nulls, p)
}

/// How many positions of some data are looked at.
pub open spec fn positions(raw: Seq<u8>) -> int {
    if raw.len() == 0 {
        1
    } else {
        raw.len() as int
    }
}

/// An occurrence in the rest of some data is one in the data.
pub proof fn occurs_in_tail(raw: Seq<u8>, target: Seq<u8>, from: int, p: int)
    requires
        0 <= from <= p,
        from <= raw.len(),
    ensures
        occurs_at(raw, target, p) == occurs_at(tail(raw, from), target, p - from),
{
    if p + target.len() <= raw.len() {
        assert(tail(raw, from).subrange(p - from, p - from + target.len()) =~= raw.subrange(
            p,
            p + target.len(),
        ));
    }
}

/// Appends the rows whose value is `target`, by the positions at which it occurs in the data.
#[verifier::spinoff_prover]
#[verifier::rlimit(40)]
fn sift_text(
    t: &PlainText,
    target: &[u8],
    n: usize,
    del: Option<&[u8]>,
    nulls: &[u8],
    base: usize,
    acc: &mut Vec<usize>,
    max: usize,
)
    requires
        t.wf(),
        base + n <= usize::MAX,
    ensures
        final(acc)@ == sift(
            rows_by_position(t@, target@, n as int, slice_view(del), nulls@),
            positions(t@.raw()),
            base as int,
            old(acc)@,
            max as int,
        ),
{
    let raw: &[u8] = t.raw();
    let ghost pick = rows_by_position(t@, target@, n as int, slice_view(del), nulls@);
    let ghost all = positions(raw@);
    let mut from: usize = 0;
    loop
        invariant_except_break
            from == 0 || from < raw.len(),
            acc@ == sift(pick, from as int, base as int, old(acc)@, max as int),
        invariant
            t.wf(),
            base + n <= usize::MAX,
            raw@ == t@.raw(),
            pick == rows_by_position(t@, target@, n as int, slice_view(del), nulls@),
            all == positions(raw@),
        ensures
            acc@ == sift(pick, all, base as int, old(acc)@, max as int),
        decreases raw.len() + 1 - from,
    {
        let rest: &[u8] = get_tail(raw, from);
        match memchr::memmem::find(rest, target) {
            None => {
                proof {
                    assert forall|p: int| from <= p < all implies #[trigger] pick(p) is None by {
                        occurs_in_tail(raw@, target@, from as int, p);
                    }
                    sift_skip(pick, from as int, all, base as int, old(acc)@, max as int);
                }
                break ;
            },
            Some(rel) => {
                if acc.len() >= max {
                    proof {
                        sift_full(pick, from as int, all, base as int, old(acc)@, max as int);
                    }
                    break ;
                }
                let at: usize = from + rel;
                proof {
                    assert forall|p: int| from <= p < at implies #[trigger] pick(p) is None by {
                        occurs_in_tail(raw@, target@, from as int, p);
                    }
                    sift_skip(pick, from as int, at as int, base as int, old(acc)@, max as int);
                    occurs_in_tail(raw@, target@, from as int, at as int);
                }
                let word: u32 = (at as u64 % 0x1_0000_0000) as u32;
                if let Some(row) = binary_search_u32_le(t.offsets, t.count, word) {
                    proof {
                        crate::bytes::bisect_hit(t.offsets@, 0, t.count as int, word);
                    }
                    let end: u64 = match u32_le_at(t.offsets, row + 1) {
                        None => 0,
                        Some(e) => e as u64,
                    };
                    if end >= at as u64 && end - at as u64 == target.len() as u64 && row < n
                        && is_open(del, Some(nulls), row) {
                        assert(pick(at as int) == Some(row as int));
                        acc.push(base + row);
                    }
                }
                proof {
                    if target@.len() == 0 {
                        assert(rest@.subrange(0, 0) =~= target@);
                        assert(occurs_at(rest@, target@, 0));
                    }
                }
                if raw.len() == 0 || at >= raw.len() - 1 {
                    assert(all == at + 1);
                    break ;
                }
                from = at + 1;
            },
        }
    }
}

/// The rows of a plain column that equal a string; a value that ends before it starts is a failure.
pub open spec fn equal_plain(t: TextSeq, target: Seq<u8>, del: Option<Seq<u8>>) -> spec_fn(
    int,
) -> Option<bool> {
    |i: int|
        if !row_open(del, None, i) {
            Some(false)
        } else if t.start(i) > t.end(i) {
            None
        } else {
            Some(t.end(i) <= t.rest.len() && t.rest.subrange(t.start(i), t.end(i)) == target)
        }
}

/// The rows of a decoded column that equal a string; a value of its length that does not lie in the
/// data is a failure.
pub open spec fn equal_decoded(
    offsets: Seq<u64>,
    data: Seq<u8>,
    target: Seq<u8>,
    del: Option<Seq<u8>>,
    nulls: Seq<u8>,
) -> spec_fn(int) -> Option<bool> {
    |i: int|
        if !row_open(del, Some(nulls), i) {
            Some(false)
        } else if offsets[i] > offsets[i + 1] {
            None
        } else if offsets[i + 1] - offsets[i] != target.len() {
            Some(false)
        } else if offsets[i + 1] > data.len() {
            None
        } else {
            Some(data.subrange(offsets[i] as int, offsets[i + 1] as int) == target)
        }
}

/// The rows of a dictionary column with an index.
pub open spec fn equal_index(d: DictSeq, k: int, del: Option<Seq<u8>>) -> spec_fn(int) -> bool {
    |i: int| row_open(del, None, i) && d.indices[i] == k
}

/// Appends the rows of a plain column that equal a string.
fn select_equal_plain(
    t: &PlainText,
    target: &[u8],
    del: Option<&[u8]>,
    n: usize,
    base: usize,
    acc: &mut Vec<usize>,
    max: usize,
) -> (ok: bool)
    requires
        t.wf(),
        n <= t.count,
        base + n <= usize::MAX,
    ensures
        ok ==> select_checked(
            equal_plain(t@, target@, slice_view(del)),
            n as int,
            base as int,
            old(acc)@,
            max as int,
        ) == Some(final(acc)@),
        !ok ==> select_checked(
            equal_plain(t@, target@, slice_view(del)),
            n as int,
            base as int,
            old(acc)@,
            max as int,
        ) is None,
{
    let ghost hit = equal_plain(t@, target@, slice_view(del));
    let f = |i: usize| -> (r: Option<bool>)
        requires
            i < n,
        ensures
            r == hit(i as int),
        {
            let s: usize = t.start(i);
            let e: usize = t.end(i);
            if !is_open(del, None, i) {
                Some(false)
            } else if s > e {
                None
            } else {
                Some(e <= t.rest.len() && bytes_eq(slice_subrange(t.rest, s, e), target))
            }
        };
    select_rows_checked(f, Ghost(hit), n, base, acc, max)
}

/// Appends the rows of a decoded column that equal a string.
fn select_equal_decoded(
    offsets: &Vec<u64>,
    data: &Vec<u8>,
    target: &[u8],
    del: Option<&[u8]>,
    nulls: &[u8],
    n: usize,
    base: usize,
    acc: &mut Vec<usize>,
    max: usize,
) -> (ok: bool)
    requires
        n < offsets@.len() || n == 0,
        base + n <= usize::MAX,
    ensures
        ok ==> select_checked(
            equal_decoded(offsets@, data@, target@, slice_view(del), nulls@),
            n as int,
            base as int,
            old(acc)@,
            max as int,
        ) == Some(final(acc)@),
        !ok ==> select_checked(
            equal_decoded(offsets@, data@, target@, slice_view(del), nulls@),
            n as int,
            base as int,
            old(acc)@,
            max as int,
        ) is None,
{
    let ghost hit = equal_decoded(offsets@, data@, target@, slice_view(del), nulls@);
    let f = |i: usize| -> (r: Option<bool>)
        requires
            i < n,
        ensures
            r == hit(i as int),
        {
            let s: u64 = offsets[i];
            let e: u64 = offsets[i + 1];
            if !is_open(del, Some(nulls), i) {
                Some(false)
            } else if s > e {
                None
            } else if e - s != target.len() as u64 {
                Some(false)
            } else if e > data.len() as u64 {
                None
            } else {
                Some(bytes_eq(slice_subrange(data.as_slice(), s as usize, e as usize), target))
            }
        };
    select_rows_checked(f, Ghost(hit), n, base, acc, max)
}

/// Appends the rows of a dictionary column with an index.
pub fn select_equal_index(
    d: &StringDictView,
    k: usize,
    del: Option<&[u8]>,
    n: usize,
    base: usize,
    acc: &mut Vec<usize>,
    max: usize,
)
    requires
        n <= d.indices@.len(),
        base + n <= usize::MAX,
    ensures
        final(acc)@ == select(
            equal_index(d@, k as int, slice_view(del)),
            n as int,
            base as int,
            old(acc)@,
            max as int,
        ),
{
    let ghost hit = equal_index(d@, k as int, slice_view(del));
    let f = |i: usize| -> (r: bool)
        requires
            i < n,
        ensures
            r == hit(i as int),
        { is_open(del, None, i) && d.indices[i] as u64 == k as u64 };
    select_rows(f, Ghost(hit), n, base, acc, max);
}

/// Whether a column is a dictionary that can be read in place.
pub open spec fn is_dictionary(kind: ColumnType, encoding: u8) -> bool {
    kind is StringDict && (encoding == COL_ENCODING_PLAIN || encoding
        == COL_ENCODING_COMPACT_DICTIONARY)
}

/// An equality scan of a string column.
pub struct TextQuery<'a> {
    pub col: usize,
    pub target: &'a [u8],
    pub max: usize,
}

/// An equality scan of a string column.
pub struct TextQuerySeq {
    pub col: int,
    pub target: Seq<u8>,
    pub max: int,
}

impl<'a> View for TextQuery<'a> {
    type V = TextQuerySeq;

    open spec fn view(&self) -> TextQuerySeq {
        TextQuerySeq { col: self.col as int, target: self.target@, max: self.max as int }
    }
}

/// The selection, or a failure that says that the layout is broken.
pub open spec fn checked(s: Option<Seq<usize>>) -> Result<Seq<usize>, ScanError> {
    match s {
        None => Err(ScanError::Corrupt),
        Some(v) => Ok(v),
    }
}

impl TextQuerySeq {
    /// `acc` with the rows of a dictionary column.
    pub open spec fn dictionary<C: ColumnCodec>(
        self,
        c: C,
        encoding: u8,
        data: Seq<u8>,
        rows: int,
        del: Option<Seq<u8>>,
        base: int,
        acc: Seq<usize>,
    ) -> Result<Seq<usize>, ScanError> {
        match c.dictionary(encoding == COL_ENCODING_COMPACT_DICTIONARY, data) {
            None => Err(ScanError::Codec),
            Some(d) => match d.find(self.target) {
                None => Ok(acc),
                Some(k) => Ok(
                    select(
                        equal_index(d, k, del),
                        min2(d.indices.len() as int, rows),
                        base,
                        acc,
                        self.max,
                    ),
                ),
            },
        }
    }

    /// `acc` with the rows of a tagged column whose place was on record.
    pub open spec fn direct<C: ColumnCodec>(
        self,
        c: C,
        kind: ColumnType,
        rows: int,
        del: Option<Seq<u8>>,
        nulls: Seq<u8>,
        col: Seq<u8>,
        base: int,
        acc: Seq<usize>,
    ) -> Result<Seq<usize>, ScanError> {
        let data = tail(col, 1);
        if col.len() == 0 {
            Err(ScanError::Corrupt)
        } else if col[0] == COL_ENCODING_PLAIN && kind is String {
            match plain_text(data) {
                None => Ok(acc),
                Some(t) => Ok(
                    sift(
                        rows_by_position(t, self.target, min2(t.count, rows), del, nulls),
                        positions(t.raw()),
                        base,
                        acc,
                        self.max,
                    ),
                ),
            }
        } else if kind is String {
            match c.decoded(true, col, kind) {
                None => Err(ScanError::Codec),
                Some((ColumnSeq::String { offsets, data: bytes }, _)) => checked(
                    select_checked(
                        equal_decoded(offsets, bytes, self.target, del, nulls),
                        min2(
                            if offsets.len() > 0 {
                                offsets.len() - 1
                            } else {
                                0
                            },
                            rows,
                        ),
                        base,
                        acc,
                        self.max,
                    ),
                ),
                Some(_) => Ok(acc),
            }
        } else if is_dictionary(kind, col[0]) {
            self.dictionary(c, col[0], data, rows, del, base, acc)
        } else {
            Ok(acc)
        }
    }

    /// `acc` with the rows of a column that a walk has reached.
    pub open spec fn reached<C: ColumnCodec>(
        self,
        c: C,
        kind: ColumnType,
        version: u8,
        rows: int,
        del: Option<Seq<u8>>,
        col: Seq<u8>,
        base: int,
        acc: Seq<usize>,
    ) -> Result<Seq<usize>, ScanError> {
        let encoding = encoding_of(version, col);
        let data = if tag_len(version) <= col.len() {
            tail(col, tag_len(version))
        } else {
            Seq::empty()
        };
        if encoding == COL_ENCODING_PLAIN && kind is String {
            match plain_text(data) {
                None => Ok(acc),
                Some(t) => checked(
                    select_checked(
                        equal_plain(t, self.target, del),
                        min2(t.count, rows),
                        base,
                        acc,
                        self.max,
                    ),
                ),
            }
        } else if is_dictionary(kind, encoding) {
            self.dictionary(c, encoding, data, rows, del, base, acc)
        } else {
            Ok(acc)
        }
    }

    /// `acc` with the rows of a row group whose columns are walked over.
    pub open spec fn walked<C: ColumnCodec>(
        self,
        c: C,
        schema: OnDemandSchema,
        g: GroupSeq,
        rows: int,
        del: Option<Seq<u8>>,
        base: int,
        acc: Seq<usize>,
    ) -> Result<Seq<usize>, ScanError> {
        let bm = bitmap_len(rows);
        let tagged = g.version >= 1;
        match walk(c, schema, tagged, g.body, bm, 0, id_section(rows, g.ids) + bm, self.col) {
            Err(e) => Err(e),
            Ok(None) => Ok(acc),
            Ok(Some(p)) => match self.reached(
                c,
                schema.kind(self.col),
                g.version,
                rows,
                del,
                tail(g.body, p + bm),
                base,
                acc,
            ) {
                Err(e) => Err(e),
                Ok(a) => match walk(
                    c,
                    schema,
                    tagged,
                    g.body,
                    bm,
                    self.col,
                    p,
                    schema.columns@.len() as int,
                ) {
                    Err(e) => Err(e),
                    Ok(_) => Ok(a),
                },
            },
        }
    }

    /// Whether the lengths of the strings in a row group rule out the target.
    pub open spec fn too_long_or_short(self, z: Option<ZoneMap>) -> bool {
        match z {
            None => false,
            Some(m) => self.target.len() < m.min_bits || self.target.len() > m.max_bits,
        }
    }

    /// `acc` with the rows of row group `i`.
    pub open spec fn group<C: ColumnCodec>(
        self,
        c: C,
        f: V4Footer,
        file: Seq<u8>,
        i: int,
        acc: Seq<usize>,
    ) -> Result<Seq<usize>, ScanError> {
        let meta = f.row_groups@[i];
        let rows = meta.row_count as int;
        let bm = bitmap_len(rows);
        let base = rows_before(f.row_groups@, i);
        if acc.len() >= self.max || rows == 0 {
            Ok(acc)
        } else {
            match group_of(c, meta, file) {
                Err(e) => Err(e),
                Ok(g) => match window(g.body, id_section(rows, g.ids), bm) {
                    None => Err(ScanError::DeletionsTruncated),
                    Some(d) => {
                        let del = if meta.deletion_count > 0 {
                            Some(d)
                        } else {
                            None
                        };
                        if self.too_long_or_short(f.zone(i, self.col, true)) {
                            Ok(acc)
                        } else {
                            match f.rcix(i, self.col) {
                                Some(o) if g.flag == RG_COMPRESS_NONE && g.version >= 1 =>
                                match window(g.body, o, bm) {
                                    None => Ok(acc),
                                    Some(nulls) => self.direct(
                                        c,
                                        f.schema.kind(self.col),
                                        rows,
                                        del,
                                        nulls,
                                        tail(g.body, o + bm),
                                        base,
                                        acc,
                                    ),
                                },
                                _ => self.walked(c, f.schema, g, rows, del, base, acc),
                            }
                        }
                    },
                },
            }
        }
    }

    /// The rows of the first `k` row groups.
    pub open spec fn scan<C: ColumnCodec>(self, c: C, f: V4Footer, file: Seq<u8>, k: int) -> Result<
        Seq<usize>,
        ScanError,
    >
        decreases k,
    {
        if k <= 0 {
            Ok(Seq::empty())
        } else {
            match self.scan(c, f, file, k - 1) {
                Err(e) => Err(e),
                Ok(acc) => self.group(c, f, file, k - 1, acc),
            }
        }
    }

    /// A failed scan stays failed.
    pub proof fn scan_failed<C: ColumnCodec>(
        self,
        c: C,
        f: V4Footer,
        file: Seq<u8>,
        j: int,
        k: int,
    )
        requires
            0 <= j <= k,
            self.scan(c, f, file, j) is Err,
        ensures
            self.scan(c, f, file, k) == self.scan(c, f, file, j),
        decreases k,
    {
        if j < k {
            self.scan_failed(c, f, file, j, k - 1);
        }
    }
}

impl<'a> TextQuery<'a> {
    fn dictionary<C: ColumnCodec>(
        &self,
        c: &C,
        encoding: u8,
        data: &[u8],
        rows: u32,
        del: Option<&[u8]>,
        base: usize,
        acc: &mut Vec<usize>,
    ) -> (r: Result<(), ScanError>)
        requires
            base + rows <= usize::MAX,
        ensures
            outcome(
                r,
                final(acc)@,
                self@.dictionary(
                    *c,
                    encoding,
                    data@,
                    rows as int,
                    slice_view(del),
                    base as int,
                    old(acc)@,
                ),
            ),
    {
        match c.read_dictionary(encoding == COL_ENCODING_COMPACT_DICTIONARY, data) {
            None => Err(ScanError::Codec),
            Some(d) => {
                if let Some(k) = d.find_value(self.target) {
                    let n: usize = min_u64(d.indices.len() as u64, rows as u64) as usize;
                    select_equal_index(&d, k, del, n, base, acc, self.max);
                }
                Ok(())
            },
        }
    }

    fn direct<C: ColumnCodec>(
        &self,
        c: &C,
        kind: ColumnType,
        rows: u32,
        del: Option<&[u8]>,
        nulls: &[u8],
        col: &[u8],
        base: usize,
        acc: &mut Vec<usize>,
    ) -> (r: Result<(), ScanError>)
        requires
            base + rows <= usize::MAX,
        ensures
            outcome(
                r,
                final(acc)@,
                self@.direct(
                    *c,
                    kind,
                    rows as int,
                    slice_view(del),
                    nulls@,
                    col@,
                    base as int,
                    old(acc)@,
                ),
            ),
    {
        if col.len() == 0 {
            return Err(ScanError::Corrupt);
        }
        let encoding: u8 = col[0];
        let data: &[u8] = get_tail(col, 1);
        let plain: bool = matches!(kind, ColumnType::String);
        if encoding == COL_ENCODING_PLAIN && plain {
            if let Some(t) = read_plain_text(data) {
                let n: usize = min_u64(t.count as u64, rows as u64) as usize;
                sift_text(&t, self.target, n, del, nulls, base, acc, self.max);
            }
            return Ok(());
        }
        if plain {
            return match c.read_column(true, col, kind) {
                None => Err(ScanError::Codec),
                Some((ColumnData::String { offsets, data: bytes }, _)) => {
                    let count: usize = if offsets.len() > 0 {
                        offsets.len() - 1
                    } else {
                        0
                    };
                    let n: usize = min_u64(count as u64, rows as u64) as usize;
                    if select_equal_decoded(
                        &offsets,
                        &bytes,
                        self.target,
                        del,
                        nulls,
                        n,
                        base,
                        acc,
                        self.max,
                    ) {
                        Ok(())
                    } else {
                        Err(ScanError::Corrupt)
                    }
                },
                Some(_) => Ok(()),
            };
        }
        if matches!(kind, ColumnType::StringDict) && (encoding == COL_ENCODING_PLAIN || encoding
            == COL_ENCODING_COMPACT_DICTIONARY) {
            return self.dictionary(c, encoding, data, rows, del, base, acc);
        }
        Ok(())
    }

    fn reached<C: ColumnCodec>(
        &self,
        c: &C,
        kind: ColumnType,
        version: u8,
        rows: u32,
        del: Option<&[u8]>,
        col: &[u8],
        base: usize,
        acc: &mut Vec<usize>,
    ) -> (r: Result<(), ScanError>)
        requires
            base + rows <= usize::MAX,
        ensures
            outcome(
                r,
                final(acc)@,
                self@.reached(
                    *c,
                    kind,
                    version,
                    rows as int,
                    slice_view(del),
                    col@,
                    base as int,
                    old(acc)@,
                ),
            ),
    {
        let encoding: u8 = get_encoding(version, col);
        let off: usize = get_tag_len(version);
        let data: &[u8] = if off <= col.len() {
            get_tail(col, off)
        } else {
            assert(col@ =~= Seq::empty());
            col
        };
        if encoding == COL_ENCODING_PLAIN && matches!(kind, ColumnType::String) {
            return match read_plain_text(data) {
                None => Ok(()),
                Some(t) => {
                    let n: usize = min_u64(t.count as u64, rows as u64) as usize;
                    if select_equal_plain(&t, self.target, del, n, base, acc, self.max) {
                        Ok(())
                    } else {
                        Err(ScanError::Corrupt)
                    }
                },
            };
        }
        if matches!(kind, ColumnType::StringDict) && (encoding == COL_ENCODING_PLAIN || encoding
            == COL_ENCODING_COMPACT_DICTIONARY) {
            return self.dictionary(c, encoding, data, rows, del, base, acc);
        }
        Ok(())
    }

    fn walked<C: ColumnCodec>(
        &self,
        c: &C,
        schema: &OnDemandSchema,
        g: &Group,
        rows: u32,
        del: Option<&[u8]>,
        base: usize,
        acc: &mut Vec<usize>,
    ) -> (r: Result<(), ScanError>)
        requires
            base + rows <= usize::MAX,
            self.col < schema.columns@.len(),
        ensures
            outcome(
                r,
                final(acc)@,
                self@.walked(
                    *c,
                    *schema,
                    g@,
                    rows as int,
                    slice_view(del),
                    base as int,
                    old(acc)@,
                ),
            ),
    {
        let bm: u64 = rg_bitmap_len(rows);
        let body: &[u8] = g.body();
        let tagged: bool = g.version >= 1;
        let first: u64 = rg_id_section_len(rows, g.ids) + bm;
        let at: usize = match walk_columns(c, schema, tagged, body, bm, 0, first, self.col) {
            Err(e) => {
                return Err(e);
            },
            Ok(None) => {
                return Ok(());
            },
            Ok(Some(p)) => p,
        };
        match self.reached(
            c,
            schema.columns[self.col].1,
            g.version,
            rows,
            del,
            get_tail(body, at + bm as usize),
            base,
            acc,
        ) {
            Err(e) => {
                return Err(e);
            },
            Ok(()) => {},
        }
        match walk_columns(
            c,
            schema,
            tagged,
            body,
            bm,
            self.col,
            at as u64,
            schema.columns.len(),
        ) {
            Err(e) => Err(e),
            Ok(_) => Ok(()),
        }
    }

    /// Tests whether the lengths of the strings in a row group rule out the target.
    pub fn too_long_or_short(&self, z: Option<ZoneMap>) -> (r: bool)
        ensures
            r == self@.too_long_or_short(z),
    {
        match z {
            None => false,
            Some(m) => {
                let len: i128 = self.target.len() as i128;
                len < m.min_bits as i128 || len > m.max_bits as i128
            },
        }
    }

    fn group<C: ColumnCodec>(
        &self,
        c: &C,
        f: &V4Footer,
        file: &[u8],
        i: usize,
        base: usize,
        acc: &mut Vec<usize>,
    ) -> (r: Result<(), ScanError>)
        requires
            i < f.row_groups@.len(),
            self.col < f.schema.columns@.len(),
            base == rows_before(f.row_groups@, i as int),
            base + f.row_groups@[i as int].row_count <= usize::MAX,
        ensures
            outcome(r, final(acc)@, self@.group(*c, *f, file@, i as int, old(acc)@)),
    {
        let meta: RowGroupMeta = f.row_groups[i];
        let rows: u32 = meta.row_count;
        if acc.len() >= self.max || rows == 0 {
            return Ok(());
        }
        let g: Group = match open_group(c, &meta, file) {
            Err(e) => {
                return Err(e);
            },
            Ok(g) => g,
        };
        let bm: u64 = rg_bitmap_len(rows);
        let body: &[u8] = g.body();
        let deleted: &[u8] = match get_window(body, rg_id_section_len(rows, g.ids), bm) {
            None => {
                return Err(ScanError::DeletionsTruncated);
            },
            Some(d) => d,
        };
        let del: Option<&[u8]> = if meta.deletion_count > 0 {
            Some(deleted)
        } else {
            None
        };
        if self.too_long_or_short(f.zone_map(i, self.col, true)) {
            return Ok(());
        }
        if g.flag == RG_COMPRESS_NONE && g.version >= 1 {
            if let Some(o) = f.column_offset(i, self.col) {
                return match get_window(body, o as u64, bm) {
                    None => Ok(()),
                    Some(nulls) => self.direct(
                        c,
                        f.schema.columns[self.col].1,
                        rows,
                        del,
                        nulls,
                        get_tail(body, (o as u64 + bm) as usize),
                        base,
                        acc,
                    ),
                };
            }
        }
        self.walked(c, &f.schema, &g, rows, del, base, acc)
    }

    /// Finds the rows of all row groups.
    pub fn scan<C: ColumnCodec>(&self, c: &C, f: &V4Footer, file: &[u8]) -> (r: Result<
        Vec<usize>,
        ScanError,
    >)
        requires
            f.wf(),
            self.col < f.schema.columns@.len(),
        ensures
            match r {
                Ok(v) => self@.scan(*c, *f, file@, f.row_groups@.len() as int) == Ok::<
                    Seq<usize>,
                    ScanError,
                >(v@),
                Err(e) => self@.scan(*c, *f, file@, f.row_groups@.len() as int) == Err::<
                    Seq<usize>,
                    ScanError,
                >(e),
            },
    {
        let mut acc: Vec<usize> = Vec::new();
        let mut base: usize = 0;
        let mut i: usize = 0;
        while i < f.row_groups.len()
            invariant
                i <= f.row_groups@.len(),
                f.wf(),
                self.col < f.schema.columns@.len(),
                base == rows_before(f.row_groups@, i as int),
                self@.scan(*c, *f, file@, i as int) == Ok::<Seq<usize>, ScanError>(acc@),
            decreases f.row_groups@.len() - i,
        {
            proof {
                rows_before_monotonic(f.row_groups@, i + 1, f.row_groups@.len() as int);
            }
            match self.group(c, f, file, i, base, &mut acc) {
                Err(e) => {
                    proof {
                        self@.scan_failed(*c, *f, file@, i + 1, f.row_groups@.len() as int);
                    }
                    return Err(e);
                },
                Ok(()) => {},
            }
            base = base + f.row_groups[i].row_count as usize;
            i = i + 1;
        }
        Ok(acc)
    }
}

} // verus!
