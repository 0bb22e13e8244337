//! Scans of string columns for LIKE patterns.

use vstd::prelude::*;
use vstd::utf8::encode_utf8;

use crate::bytes::bitmap_len;
use crate::codec::ColumnCodec;
use crate::group::{
    get_tail, get_window, group_of, id_section, open_group, rg_bitmap_len, rg_id_section_len, tail,
    window, Group,
};
use crate::like::{classify_like_pattern, is_plain, plain, shape_of, LikeKind, LikeShape};
use crate::model::{
    is_text, rows_before, rows_before_monotonic, ColumnType, RowGroupMeta, ScanError, V4Footer,
    COL_ENCODING_COMPACT_DICTIONARY, COL_ENCODING_PLAIN, RG_COMPRESS_NONE,
};
use crate::numeric::{answer, min2, min_u64, outcome, slice_view};
use crate::select::{select, select_checked};
use crate::storage::{max_rows, rows_view, OnDemandStorage};
use crate::text::{
    dict_rows, plain_text, read_plain_text, select_dict, select_strict, strict_rows, StrTest,
    StrTestSeq,
};
use crate::text_filter::{checked, is_dictionary};
use crate::text_scan::{all_quick, are_all_quick, get_quick_column, quick_column};

verus! {

/// A scan for a LIKE pattern.
pub struct LikeQuery<'a> {
    pub col: usize,
    pub dict: bool,
    pub kind: &'a LikeKind,
    pub max: usize,
}

/// A scan for a LIKE pattern.
pub struct LikeQuerySeq {
    pub col: int,
    pub dict: bool,
    pub shape: LikeShape,
    pub max: int,
}

impl<'a> View for LikeQuery<'a> {
    type V = LikeQuerySeq;

    open spec fn view(&self) -> LikeQuerySeq {
        LikeQuerySeq {
            col: self.col as int,
            dict: self.dict,
            shape: self.kind@,
            max: self.max as int,
        }
    }
}

impl LikeQuerySeq {
    /// `acc` with the rows of a column. Missing values of a dictionary column have index 0, so its
    /// null bitmap is not looked at. `lost` says that the row group has deletions but no bitmap of
    /// them, which the first row that is looked at brings to light.
    pub open spec fn rows<C: ColumnCodec>(
        self,
        c: C,
        encoding: u8,
        data: Seq<u8>,
        lost: bool,
        del: Option<Seq<u8>>,
        nulls: Seq<u8>,
        rows: int,
        base: int,
        acc: Seq<usize>,
    ) -> Result<Seq<usize>, ScanError> {
        let test = StrTestSeq::Like(self.shape);
        if !self.dict {
            match plain_text(data) {
                Some(t) if encoding == COL_ENCODING_PLAIN => {
                    let n = min2(t.count, rows);
                    if lost && n > 0 && acc.len() < self.max {
                        Err(ScanError::Corrupt)
                    } else {
                        checked(
                            select_checked(
                                strict_rows(t, test, del, Some(nulls)),
                                n,
                                base,
                                acc,
                                self.max,
                            ),
                        )
                    }
                },
                _ => Ok(acc),
            }
        } else if !is_dictionary(ColumnType::StringDict, encoding) {
            Ok(acc)
        } else {
            match c.dictionary(encoding == COL_ENCODING_COMPACT_DICTIONARY, data) {
                None => Ok(acc),
                Some(d) => {
                    let n = min2(d.indices.len() as int, rows);
                    if lost && n > 0 && acc.len() < self.max {
                        Err(ScanError::Corrupt)
                    } else {
                        Ok(select(dict_rows(d, test, del, None), n, base, acc, self.max))
                    }
                },
            }
        }
    }

    /// `acc` with the rows of row group `i`, scanned in place. A missing deletion bitmap counts as
    /// one without deletions.
    pub open spec fn quick<C: ColumnCodec>(
        self,
        c: C,
        f: V4Footer,
        file: Seq<u8>,
        i: int,
        acc: Seq<usize>,
    ) -> Result<Seq<usize>, ScanError> {
        let meta = f.row_groups@[i];
        match quick_column(f, file, self.col, i) {
            None => Ok(acc),
            Some(q) => self.rows(
                c,
                q.encoding,
                q.data,
                false,
                if meta.deletion_count > 0 {
                    q.deleted
                } else {
                    None
                },
                q.nulls,
                meta.row_count as int,
                rows_before(f.row_groups@, i),
                acc,
            ),
        }
    }

    /// `acc` with the rows of row group `i`. A row group that cannot be scanned in place gives no
    /// rows.
    pub open spec fn group<C: ColumnCodec>(
        self,
        c: C,
        f: V4Footer,
        file: Seq<u8>,
        i: int,
        acc: Seq<usize>,
    ) -> Result<Seq<usize>, ScanError> {
        let meta = f.row_groups@[i];
        let rows = meta.row_count as int;
        let bm = bitmap_len(rows);
        if acc.len() >= self.max || rows == 0 {
            Ok(acc)
        } else {
            match group_of(c, meta, file) {
                Err(e) => Err(e),
                Ok(g) => {
                    let deleted = window(g.body, id_section(rows, g.ids), bm);
                    match f.rcix(i, self.col) {
                        Some(o) if g.flag == RG_COMPRESS_NONE && g.version >= 1 => match window(
                            g.body,
                            o,
                            bm,
                        ) {
                            None => Ok(acc),
                            Some(nulls) => {
                                let col = tail(g.body, o + bm);
                                if col.len() == 0 {
                                    Ok(acc)
                                } else {
                                    self.rows(
                                        c,
                                        col[0],
                                        tail(col, 1),
                                        meta.deletion_count > 0 && deleted is None,
                                        if meta.deletion_count > 0 {
                                            deleted
                                        } else {
                                            None
                                        },
                                        nulls,
                                        rows,
                                        rows_before(f.row_groups@, i),
                                        acc,
                                    )
                                }
                            },
                        },
                        _ => Ok(acc),
                    }
                },
            }
        }
    }

    /// The rows of the first `k` row groups; `quick` scans them in place.
    pub open spec fn scan<C: ColumnCodec>(
        self,
        c: C,
        f: V4Footer,
        file: Seq<u8>,
        quick: bool,
        k: int,
    ) -> Result<Seq<usize>, ScanError>
        decreases k,
    {
        if k <= 0 {
            Ok(Seq::empty())
        } else {
            match self.scan(c, f, file, quick, k - 1) {
                Err(e) => Err(e),
                Ok(acc) => if quick {
                    self.quick(c, f, file, k - 1, acc)
                } else {
                    self.group(c, f, file, k - 1, acc)
                },
            }
        }
    }

    proof fn scan_failed<C: ColumnCodec>(
        self,
        c: C,
        f: V4Footer,
        file: Seq<u8>,
        quick: bool,
        j: int,
        k: int,
    )
        requires
            0 <= j <= k,
            self.scan(c, f, file, quick, j) is Err,
        ensures
            self.scan(c, f, file, quick, k) == self.scan(c, f, file, quick, j),
        decreases k,
    {
        if j < k {
            self.scan_failed(c, f, file, quick, j, k - 1);
        }
    }
}

impl<'a> LikeQuery<'a> {
    pub(crate) fn rows<C: ColumnCodec>(
        &self,
        c: &C,
        encoding: u8,
        data: &[u8],
        lost: bool,
        del: Option<&[u8]>,
        nulls: &[u8],
        rows: u32,
        base: usize,
        acc: &mut Vec<usize>,
    ) -> (r: Result<(), ScanError>)
        requires
            base + rows <= usize::MAX,
        ensures
            outcome(
                r,
                final(acc)@,
                self@.rows(
                    *c,
                    encoding,
                    data@,
                    lost,
                    slice_view(del),
                    nulls@,
                    rows as int,
                    base as int,
                    old(acc)@,
                ),
            ),
    {
        let test: StrTest = StrTest::Like(self.kind);
        if !self.dict {
            if encoding != COL_ENCODING_PLAIN {
                return Ok(());
            }
            return match read_plain_text(data) {
                None => Ok(()),
                Some(t) => {
                    let n: usize = min_u64(t.count as u64, rows as u64) as usize;
                    if lost && n > 0 && acc.len() < self.max {
                        return Err(ScanError::Corrupt);
                    }
                    if select_strict(&t, &test, del, Some(nulls), n, base, acc, self.max) {
                        Ok(())
                    } else {
                        Err(ScanError::Corrupt)
                    }
                },
            };
        }
        if encoding != COL_ENCODING_PLAIN && encoding != COL_ENCODING_COMPACT_DICTIONARY {
            return Ok(());
        }
        match c.read_dictionary(encoding == COL_ENCODING_COMPACT_DICTIONARY, data) {
            None => Ok(()),
            Some(d) => {
                let n: usize = min_u64(d.indices.len() as u64, rows as u64) as usize;
                if lost && n > 0 && acc.len() < self.max {
                    return Err(ScanError::Corrupt);
                }
                select_dict(&d, &test, del, None, n, base, acc, self.max);
                Ok(())
            },
        }
    }

    fn quick<C: ColumnCodec>(
        &self,
        c: &C,
        f: &V4Footer,
        file: &[u8],
        i: usize,
        base: usize,
        acc: &mut Vec<usize>,
    ) -> (r: Result<(), ScanError>)
        requires
            i < f.row_groups@.len(),
            base == rows_before(f.row_groups@, i as int),
            base + f.row_groups@[i as int].row_count <= usize::MAX,
        ensures
            outcome(r, final(acc)@, self@.quick(*c, *f, file@, i as int, old(acc)@)),
    {
        let meta: RowGroupMeta = f.row_groups[i];
        match get_quick_column(f, file, self.col, i) {
            None => Ok(()),
            Some(q) => {
                let del: Option<&[u8]> = if meta.deletion_count > 0 {
                    q.deleted
                } else {
                    None
                };
                self.rows(
                    c,
                    q.encoding,
                    q.data,
                    false,
                    del,
                    q.nulls,
                    meta.row_count,
                    base,
                    acc,
                )
            },
        }
    }

    fn group<C: ColumnCodec>(
        &self,
        c: &C,
        f: &V4Footer,
        file: &[u8],
        i: usize,
        base: usize,
        acc: &mut Vec<usize>,
    ) -> (r: Result<(), ScanError>)
        requires
            i < f.row_groups@.len(),
            base == rows_before(f.row_groups@, i as int),
            base + f.row_groups@[i as int].row_count <= usize::MAX,
        ensures
            outcome(r, final(acc)@, self@.group(*c, *f, file@, i as int, old(acc)@)),
    {
        let meta: RowGroupMeta = f.row_groups[i];
        let rows: u32 = meta.row_count;
        if acc.len() >= self.max || rows == 0 {
            return Ok(());
        }
        let g: Group = match open_group(c, &meta, file) {
            Err(e) => {
                return Err(e);
            },
            Ok(g) => g,
        };
        let bm: u64 = rg_bitmap_len(rows);
        let body: &[u8] = g.body();
        let deleted: Option<&[u8]> = get_window(body, rg_id_section_len(rows, g.ids), bm);
        if g.flag != RG_COMPRESS_NONE || g.version < 1 {
            return Ok(());
        }
        match f.column_offset(i, self.col) {
            None => Ok(()),
            Some(o) => match get_window(body, o as u64, bm) {
                None => Ok(()),
                Some(nulls) => {
                    let col: &[u8] = get_tail(body, (o as u64 + bm) as usize);
                    if col.len() == 0 {
                        return Ok(());
                    }
                    let lost: bool = meta.deletion_count > 0 && deleted.is_none();
                    let del: Option<&[u8]> = if meta.deletion_count > 0 {
                        deleted
                    } else {
                        None
                    };
                    self.rows(c, col[0], get_tail(col, 1), lost, del, nulls, rows, base, acc)
                },
            },
        }
    }

    fn scan<C: ColumnCodec>(&self, c: &C, f: &V4Footer, file: &[u8], quick: bool) -> (r: Result<
        Vec<usize>,
        ScanError,
    >)
        requires
            f.wf(),
        ensures
            match r {
                Ok(v) => self@.scan(*c, *f, file@, quick, f.row_groups@.len() as int) == Ok::<
                    Seq<usize>,
                    ScanError,
                >(v@),
                Err(e) => self@.scan(*c, *f, file@, quick, f.row_groups@.len() as int) == Err::<
                    Seq<usize>,
                    ScanError,
                >(e),
            },
    {
        let mut acc: Vec<usize> = Vec::new();
        let mut base: usize = 0;
        let mut i: usize = 0;
        while i < f.row_groups.len()
            invariant
                i <= f.row_groups@.len(),
                f.wf(),
                base == rows_before(f.row_groups@, i as int),
                self@.scan(*c, *f, file@, quick, i as int) == Ok::<Seq<usize>, ScanError>(acc@),
            decreases f.row_groups@.len() - i,
        {
            proof {
                rows_before_monotonic(f.row_groups@, i + 1, f.row_groups@.len() as int);
            }
            let r: Result<(), ScanError> = if quick {
                self.quick(c, f, file, i, base, &mut acc)
            } else {
                self.group(c, f, file, i, base, &mut acc)
            };
            match r {
                Err(e) => {
                    proof {
                        self@.scan_failed(*c, *f, file@, quick, i + 1, f.row_groups@.len() as int);
                    }
                    return Err(e);
                },
                Ok(()) => {},
            }
            base = base + f.row_groups[i].row_count as usize;
            i = i + 1;
        }
        Ok(acc)
    }
}

impl<C: ColumnCodec> OnDemandStorage<C> {
    /// The rows whose string matches a pattern. A pattern without wildcards asks for equality; one
    /// that has no shape gets no answer.
    pub open spec fn like_filter(
        self,
        col_name: Seq<char>,
        pattern: Seq<char>,
        limit: Option<usize>,
    ) -> Result<Option<Seq<usize>>, ScanError> {
        if plain(encode_utf8(pattern)) {
            self.string_filter(col_name, encode_utf8(pattern), limit)
        } else {
            match (shape_of(pattern), self.footer) {
                (Some(shape), Some(f)) => match f.schema.index_of(col_name) {
                    None => Ok(None),
                    Some(col) => {
                        let kind = f.schema.kind(col as int);
                        if !is_text(kind) {
                            Ok(None)
                        } else {
                            match self.file {
                                None => Err(ScanError::NotOpen),
                                Some(file) => {
                                    let n = f.row_groups@.len() as int;
                                    let q = LikeQuerySeq {
                                        col: col as int,
                                        dict: kind is StringDict,
                                        shape,
                                        max: max_rows(limit),
                                    };
                                    answer(
                                        q.scan(
                                            self.codec,
                                            f,
                                            file@,
                                            limit is None && n > 1 && all_quick(
                                                f,
                                                file@,
                                                col as int,
                                            ),
                                            n,
                                        ),
                                    )
                                },
                            }
                        }
                    },
                },
                _ => Ok(None),
            }
        }
    }

    /// Finds the rows whose string matches a pattern, in order, up to a limit.
    pub fn scan_like_filter_mmap(&self, col_name: &str, pattern: &str, limit: Option<usize>) -> (r:
        Result<Option<Vec<usize>>, ScanError>)
        requires
            self.wf(),
        ensures
            rows_view(r) == self.like_filter(col_name@, pattern@, limit),
    {
        let bytes: &[u8] = pattern.as_bytes();
        if is_plain(bytes) {
            return self.filter_bytes(col_name, bytes, limit);
        }
        let like: LikeKind = match classify_like_pattern(pattern) {
            None => {
                return Ok(None);
            },
            Some(k) => k,
        };
        let f: &V4Footer = match &self.footer {
            None => {
                return Ok(None);
            },
            Some(f) => f,
        };
        let col: usize = match f.schema.get_index(col_name) {
            None => {
                return Ok(None);
            },
            Some(i) => i,
        };
        let kind: ColumnType = f.schema.columns[col].1;
        if !kind.is_text() {
            return Ok(None);
        }
        let file: &[u8] = match &self.file {
            None => {
                return Err(ScanError::NotOpen);
            },
            Some(v) => v.as_slice(),
        };
        let max: usize = match limit {
            None => usize::MAX,
            Some(n) => n,
        };
        let q: LikeQuery = LikeQuery {
            col,
            dict: matches!(kind, ColumnType::StringDict),
            kind: &like,
            max,
        };
        let quick: bool = limit.is_none() && f.row_groups.len() > 1 && are_all_quick(f, file, col);
        match q.scan(&self.codec, f, file, quick) {
            Err(e) => Err(e),
            Ok(v) => Ok(Some(v)),
        }
    }
}

} // verus!
