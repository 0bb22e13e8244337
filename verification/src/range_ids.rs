//! Range scans that give identifiers, and estimates from zone maps alone.

use vstd::prelude::*;
use vstd::slice::slice_subrange;

use crate::bytes::{bitmap_len, i64_le, read_i64, read_u64, u64_le};
use crate::codec::ColumnCodec;
use crate::column::{ColumnData, ColumnSeq};
use crate::double::F64;
use crate::group::{
    get_tail, get_window, group_of, id_at, id_section, open_group, rg_bitmap_len, rg_id_at,
    rg_id_section_len, tail, walk, walk_columns, window, Group, GroupSeq,
};
use crate::model::{
    is_float, is_int, ColumnType, RowGroupMeta, ScanError, V4Footer, ZoneMap, COL_ENCODING_BITPACK,
    COL_ENCODING_PLAIN, COL_ENCODING_RLE, RG_COMPRESS_NONE,
};
use crate::numeric::{
    encoding_of, get_encoding, get_plain_numbers, get_tag_len, min2, min_u64, num_rows,
    plain_numbers, range_test, slice_view, tag_len, NumSeq, NumSource, NumTest, TestSeq,
};
use crate::select::{select, select_adds};
use crate::storage::OnDemandStorage;

verus! {

/// The identifiers of some rows, leaving out those that have none.
pub open spec fn ids_of(rows: Seq<usize>, body: Seq<u8>, min_id: u64, ids: u8) -> Seq<u64>
    decreases rows.len(),
{
    if rows.len() == 0 {
        Seq::empty()
    } else {
        let before = ids_of(rows.drop_last(), body, min_id, ids);
        match id_at(body, min_id, ids, rows.last() as int) {
            None => before,
            Some(id) => before.push(id as u64),
        }
    }
}

/// Appends the identifiers of some rows.
pub fn push_ids(rows: &Vec<usize>, body: &[u8], min_id: u64, ids: u8, out: &mut Vec<u64>)
    requires
        forall|k: int| 0 <= k < rows@.len() ==> #[trigger] rows@[k] <= u32::MAX,
    ensures
        final(out)@ == old(out)@ + ids_of(rows@, body@, min_id, ids),
{
    let mut k: usize = 0;
    assert(rows@.take(0) =~= Seq::empty());
    while k < rows.len()
        invariant
            k <= rows@.len(),
            forall|k: int| 0 <= k < rows@.len() ==> #[trigger] rows@[k] <= u32::MAX,
            out@ =~= old(out)@ + ids_of(rows@.take(k as int), body@, min_id, ids),
        decreases rows@.len() - k,
    {
        assert(rows@.take(k + 1).drop_last() =~= rows@.take(k as int));
        assert(rows@[k as int] <= u32::MAX);
        if let Some(id) = rg_id_at(body, min_id, ids, rows[k] as u32) {
            out.push(id);
        }
        k = k + 1;
    }
    assert(rows@.take(rows@.len() as int) =~= rows@);
}

/// The largest number that bit-packed integers of a width can hold.
pub open spec fn packed_top(min: int, width: int) -> int {
    let top = min + vstd::arithmetic::power2::pow2(width as nat) - 1;
    if top > i64::MAX {
        i64::MAX as int
    } else {
        top
    }
}

/// The smallest and largest of the first `runs` values of run-length coded integers, `None` where
/// the runs are cut off.
pub open spec fn run_bounds(data: Seq<u8>, runs: int) -> Option<(int, int)>
    decreases runs,
{
    if runs <= 0 {
        Some((i64::MAX as int, i64::MIN as int))
    } else {
        match run_bounds(data, runs - 1) {
            None => None,
            Some((low, high)) => {
                let at = 16 + (runs - 1) * 12;
                if at + 8 > data.len() {
                    None
                } else {
                    let v = i64_le(data, at);
                    Some(
                        (
                            if v < low {
                                v
                            } else {
                                low
                            },
                            if v > high {
                                v
                            } else {
                                high
                            },
                        ),
                    )
                }
            },
        }
    }
}

/// Whether the header of an encoded integer column shows that no number lies in `low..=high`.
/// `Err` where the header gives a width that no packed integers have.
pub open spec fn header_misses(encoding: u8, data: Seq<u8>, low: int, high: int) -> Result<
    bool,
    ScanError,
> {
    if encoding == COL_ENCODING_BITPACK && data.len() >= 17 {
        let min = i64_le(data, 9);
        if data[8] >= 64 {
            Err(ScanError::Corrupt)
        } else {
            Ok(packed_top(min, data[8] as int) < low || min > high)
        }
    } else if encoding == COL_ENCODING_RLE && data.len() >= 16 {
        match run_bounds(data, u64_le(data, 8) as int) {
            None => Ok(false),
            Some((least, greatest)) => Ok(greatest < low || least > high),
        }
    } else {
        Ok(false)
    }
}

/// A cut-off run stays cut off.
proof fn run_bounds_cut(data: Seq<u8>, j: int, k: int)
    requires
        0 <= j <= k,
        run_bounds(data, j) is None,
    ensures
        run_bounds(data, k) is None,
    decreases k,
{
    if j < k {
        run_bounds_cut(data, j, k - 1);
    }
}

fn get_run_bounds(data: &[u8], runs: u64) -> (r: Option<(i64, i64)>)
    requires
        data.len() >= 16,
    ensures
        match r {
            None => run_bounds(data@, runs as int) is None,
            Some((a, b)) => run_bounds(data@, runs as int) == Some((a as int, b as int)),
        },
{
    let mut low: i64 = i64::MAX;
    let mut high: i64 = i64::MIN;
    let mut at: u64 = 16;
    let mut k: u64 = 0;
    while k < runs
        invariant
            k <= runs,
            at == 16 + k * 12,
            at <= data.len() + 12,
            run_bounds(data@, k as int) == Some((low as int, high as int)),
        decreases runs - k,
    {
        if at as u128 + 8 > data.len() as u128 {
            proof {
                assert(run_bounds(data@, k + 1) is None);
                run_bounds_cut(data@, k + 1, runs as int);
            }
            return None;
        }
        let v: i64 = read_i64(data, at as usize);
        if v < low {
            low = v;
        }
        if v > high {
            high = v;
        }
        if at > u64::MAX - 12 {
            // The next run would start beyond any slice.
            if k + 1 == runs {
                return Some((low, high));
            }
            proof {
                assert(run_bounds(data@, k + 2) is None);
                run_bounds_cut(data@, k + 2, runs as int);
            }
            return None;
        }
        at = at + 12;
        k = k + 1;
    }
    Some((low, high))
}

/// Tests the header of an encoded integer column.
fn get_header_misses(encoding: u8, data: &[u8], low: i64, high: i64) -> (r: Result<bool, ScanError>)
    ensures
        r == header_misses(encoding, data@, low as int, high as int),
{
    if encoding == COL_ENCODING_BITPACK && data.len() >= 17 {
        let width: u8 = data[8];
        if width >= 64 {
            return Err(ScanError::Corrupt);
        }
        let min: i64 = read_i64(data, 9);
        proof {
            vstd::bits::lemma_u64_pow2_no_overflow(width as nat);
            vstd::bits::lemma_u64_shl_is_mul(1, width as u64);
        }
        let span: u64 = 1u64 << (width as u64);
        let sum: i128 = min as i128 + span as i128 - 1;
        let top: i64 = if sum > i64::MAX as i128 {
            i64::MAX
        } else {
            sum as i64
        };
        Ok(top < low || min > high)
    } else if encoding == COL_ENCODING_RLE && data.len() >= 16 {
        match get_run_bounds(data, read_u64(data, 8)) {
            None => Ok(false),
            Some((least, greatest)) => Ok(greatest < low || least > high),
        }
    } else {
        Ok(false)
    }
}

/// Which identifiers a scan looks for.
pub struct IdQuery {
    pub col: usize,
    pub ints: bool,
    pub test: NumTest,
}

/// Which identifiers a scan looks for.
pub struct IdQuerySeq {
    pub col: int,
    pub ints: bool,
    pub test: TestSeq,
}

impl View for IdQuery {
    type V = IdQuerySeq;

    open spec fn view(&self) -> IdQuerySeq {
        IdQuerySeq { col: self.col as int, ints: self.ints, test: self.test@ }
    }
}

impl IdQuerySeq {
    /// The rows below `n` that pass.
    pub open spec fn rows(
        self,
        src: NumSeq,
        n: int,
        del: Option<Seq<u8>>,
        nulls: Seq<u8>,
    ) -> Seq<usize> {
        select(num_rows(src, self.test, del, Some(nulls)), n, 0, Seq::empty(), usize::MAX as int)
    }

    /// The rows of a column that a walk has reached.
    pub open spec fn reached<C: ColumnCodec>(
        self,
        c: C,
        kind: ColumnType,
        version: u8,
        rows: int,
        del: Option<Seq<u8>>,
        nulls: Seq<u8>,
        col: Seq<u8>,
    ) -> Result<Seq<usize>, ScanError> {
        let data = tail(col, tag_len(version));
        let encoding = encoding_of(version, col);
        if version >= 1 && col.len() == 0 {
            Err(ScanError::Corrupt)
        } else if encoding == COL_ENCODING_PLAIN && data.len() >= 8 {
            let (src, n) = plain_numbers(self.ints, rows, data);
            Ok(self.rows(src, n, del, nulls))
        } else {
            let missed = if self.ints && version >= 1 {
                header_misses(encoding, data, self.test.low_i, self.test.high_i)
            } else {
                Ok(false)
            };
            match missed {
                Err(e) => Err(e),
                Ok(true) => Ok(Seq::empty()),
                Ok(false) => match c.decoded(version >= 1, col, kind) {
                    None => Err(ScanError::Codec),
                    Some((ColumnSeq::Int64(v), _)) => Ok(
                        self.rows(NumSeq::Ints(v), min2(v.len() as int, rows), del, nulls),
                    ),
                    Some((ColumnSeq::Float64(v), _)) => Ok(
                        self.rows(NumSeq::Reals(v), min2(v.len() as int, rows), del, nulls),
                    ),
                    Some(_) => Ok(Seq::empty()),
                },
            }
        }
    }

    /// The rows of a row group whose columns are walked over up to the one that is looked for.
    pub open spec fn walked<C: ColumnCodec>(
        self,
        c: C,
        f: V4Footer,
        g: GroupSeq,
        rows: int,
        del: Option<Seq<u8>>,
    ) -> Result<Seq<usize>, ScanError> {
        let bm = bitmap_len(rows);
        match walk(
            c,
            f.schema,
            g.version >= 1,
            g.body,
            bm,
            0,
            id_section(rows, g.ids) + bm,
            self.col,
        ) {
            Err(e) => Err(e),
            Ok(None) => Ok(Seq::empty()),
            Ok(Some(p)) => self.reached(
                c,
                f.schema.kind(self.col),
                g.version,
                rows,
                del,
                g.body.subrange(p, p + bm),
                tail(g.body, p + bm),
            ),
        }
    }

    /// The rows of a row group that was read.
    pub open spec fn rows_in<C: ColumnCodec>(
        self,
        c: C,
        f: V4Footer,
        g: GroupSeq,
        i: int,
    ) -> Result<Seq<usize>, ScanError> {
        let meta = f.row_groups@[i];
        let rows = meta.row_count as int;
        let bm = bitmap_len(rows);
        match window(g.body, id_section(rows, g.ids), bm) {
            None => Ok(Seq::empty()),
            Some(d) => {
                let del = if meta.deletion_count > 0 {
                    Some(d)
                } else {
                    None
                };
                match f.rcix(i, self.col) {
                    Some(o) if g.flag == RG_COMPRESS_NONE => match window(g.body, o, bm) {
                        None => Ok(Seq::empty()),
                        Some(nulls) => {
                            let col = tail(g.body, o + bm);
                            let off = tag_len(g.version);
                            let encoding = encoding_of(g.version, col);
                            if encoding == COL_ENCODING_PLAIN && col.len() > off + 8 {
                                let (src, n) = plain_numbers(self.ints, rows, tail(col, off));
                                Ok(self.rows(src, n, del, nulls))
                            } else if !self.ints {
                                self.walked(c, f, g, rows, del)
                            } else if col.len() < off {
                                Err(ScanError::Corrupt)
                            } else {
                                match header_misses(
                                    encoding,
                                    tail(col, off),
                                    self.test.low_i,
                                    self.test.high_i,
                                ) {
                                    Err(e) => Err(e),
                                    Ok(true) => Ok(Seq::empty()),
                                    Ok(false) => self.walked(c, f, g, rows, del),
                                }
                            }
                        },
                    },
                    _ => self.walked(c, f, g, rows, del),
                }
            },
        }
    }

    /// The identifiers in row group `i`.
    pub open spec fn group<C: ColumnCodec>(self, c: C, f: V4Footer, file: Seq<u8>, i: int) -> Result<
        Seq<u64>,
        ScanError,
    > {
        let meta = f.row_groups@[i];
        if meta.row_count == 0 || meta.live() == 0 || self.test.misses(f.zone(i, self.col, false)) {
            Ok(Seq::empty())
        } else {
            match group_of(c, meta, file) {
                Err(e) => Err(e),
                Ok(g) => match self.rows_in(c, f, g, i) {
                    Err(e) => Err(e),
                    Ok(rows) => Ok(ids_of(rows, g.body, meta.min_id, g.ids)),
                },
            }
        }
    }

    /// The identifiers in the first `k` row groups.
    pub open spec fn scan<C: ColumnCodec>(self, c: C, f: V4Footer, file: Seq<u8>, k: int) -> Result<
        Seq<u64>,
        ScanError,
    >
        decreases k,
    {
        if k <= 0 {
            Ok(Seq::empty())
        } else {
            match self.scan(c, f, file, k - 1) {
                Err(e) => Err(e),
                Ok(acc) => match self.group(c, f, file, k - 1) {
                    Err(e) => Err(e),
                    Ok(ids) => Ok(acc + ids),
                },
            }
        }
    }

    /// A failed scan stays failed.
    pub proof fn scan_failed<C: ColumnCodec>(
        self,
        c: C,
        f: V4Footer,
        file: Seq<u8>,
        j: int,
        k: int,
    )
        requires
            0 <= j <= k,
            self.scan(c, f, file, j) is Err,
        ensures
            self.scan(c, f, file, k) == self.scan(c, f, file, j),
        decreases k,
    {
        if j < k {
            self.scan_failed(c, f, file, j, k - 1);
        }
    }
}

/// Rows as a sequence.
pub open spec fn found_view(r: Result<Vec<usize>, ScanError>) -> Result<Seq<usize>, ScanError> {
    match r {
        Err(e) => Err(e),
        Ok(v) => Ok(v@),
    }
}

/// Identifiers as a sequence.
pub open spec fn ids_view(r: Result<Option<Vec<u64>>, ScanError>) -> Result<
    Option<Seq<u64>>,
    ScanError,
> {
    match r {
        Err(e) => Err(e),
        Ok(None) => Ok(None),
        Ok(Some(v)) => Ok(Some(v@)),
    }
}

/// Whether every found row fits a row group.
pub open spec fn rows_small(r: Result<Vec<usize>, ScanError>) -> bool {
    r matches Ok(v) ==> forall|k: int| 0 <= k < v@.len() ==> #[trigger] v@[k] <= u32::MAX
}

impl IdQuery {
    fn rows(&self, src: &NumSource, n: usize, del: Option<&[u8]>, nulls: &[u8]) -> (r: Vec<usize>)
        requires
            src@.covers(n as int),
            n <= u32::MAX,
        ensures
            r@ == self@.rows(src@, n as int, slice_view(del), nulls@),
            forall|k: int| 0 <= k < r@.len() ==> #[trigger] r@[k] <= u32::MAX,
    {
        let mut found: Vec<usize> = Vec::new();
        src.select(&self.test, del, Some(nulls), n, 0, &mut found, usize::MAX);
        proof {
            select_adds(
                num_rows(src@, self.test@, slice_view(del), Some(nulls@)),
                n as int,
                0,
                Seq::empty(),
                usize::MAX as int,
            );
        }
        found
    }

    fn reached<C: ColumnCodec>(
        &self,
        c: &C,
        kind: ColumnType,
        version: u8,
        rows: u32,
        del: Option<&[u8]>,
        nulls: &[u8],
        col: &[u8],
    ) -> (r: Result<Vec<usize>, ScanError>)
        ensures
            found_view(r) == self@.reached(
                *c,
                kind,
                version,
                rows as int,
                slice_view(del),
                nulls@,
                col@,
            ),
            rows_small(r),
    {
        if version >= 1 && col.len() == 0 {
            return Err(ScanError::Corrupt);
        }
        let data: &[u8] = get_tail(col, get_tag_len(version));
        let encoding: u8 = get_encoding(version, col);
        if encoding == COL_ENCODING_PLAIN && data.len() >= 8 {
            let (src, n): (NumSource, usize) = get_plain_numbers(self.ints, rows, data);
            return Ok(self.rows(&src, n, del, nulls));
        }
        if self.ints && version >= 1 {
            match get_header_misses(encoding, data, self.test.low_i, self.test.high_i) {
                Err(e) => {
                    return Err(e);
                },
                Ok(true) => {
                    return Ok(Vec::new());
                },
                Ok(false) => {},
            }
        }
        match c.read_column(version >= 1, col, kind) {
            None => Err(ScanError::Codec),
            Some((ColumnData::Int64(v), _)) => {
                let n: usize = min_u64(v.len() as u64, rows as u64) as usize;
                Ok(self.rows(&NumSource::Ints(&v), n, del, nulls))
            },
            Some((ColumnData::Float64(v), _)) => {
                let n: usize = min_u64(v.len() as u64, rows as u64) as usize;
                Ok(self.rows(&NumSource::Reals(&v), n, del, nulls))
            },
            Some(_) => Ok(Vec::new()),
        }
    }

    fn walked<C: ColumnCodec>(
        &self,
        c: &C,
        f: &V4Footer,
        g: &Group,
        rows: u32,
        del: Option<&[u8]>,
    ) -> (r: Result<Vec<usize>, ScanError>)
        requires
            self.col < f.schema.columns@.len(),
        ensures
            found_view(r) == self@.walked(*c, *f, g@, rows as int, slice_view(del)),
            rows_small(r),
    {
        let bm: u64 = rg_bitmap_len(rows);
        let body: &[u8] = g.body();
        let first: u64 = rg_id_section_len(rows, g.ids) + bm;
        match walk_columns(c, &f.schema, g.version >= 1, body, bm, 0, first, self.col) {
            Err(e) => Err(e),
            Ok(None) => Ok(Vec::new()),
            Ok(Some(p)) => {
                let start: usize = p + bm as usize;
                self.reached(
                    c,
                    f.schema.columns[self.col].1,
                    g.version,
                    rows,
                    del,
                    slice_subrange(body, p, start),
                    get_tail(body, start),
                )
            },
        }
    }

    fn rows_in<C: ColumnCodec>(&self, c: &C, f: &V4Footer, g: &Group, i: usize) -> (r: Result<
        Vec<usize>,
        ScanError,
    >)
        requires
            i < f.row_groups@.len(),
            self.col < f.schema.columns@.len(),
        ensures
            found_view(r) == self@.rows_in(*c, *f, g@, i as int),
            rows_small(r),
    {
        let meta: RowGroupMeta = f.row_groups[i];
        let rows: u32 = meta.row_count;
        let bm: u64 = rg_bitmap_len(rows);
        let body: &[u8] = g.body();
        let del: Option<&[u8]> = match get_window(body, rg_id_section_len(rows, g.ids), bm) {
            None => {
                return Ok(Vec::new());
            },
            Some(d) => if meta.deletion_count > 0 {
                Some(d)
            } else {
                None
            },
        };
        if g.flag == RG_COMPRESS_NONE {
            if let Some(o) = f.column_offset(i, self.col) {
                match get_window(body, o as u64, bm) {
                    None => {
                        return Ok(Vec::new());
                    },
                    Some(nulls) => {
                        let col: &[u8] = get_tail(body, (o as u64 + bm) as usize);
                        let off: usize = get_tag_len(g.version);
                        let encoding: u8 = get_encoding(g.version, col);
                        if encoding == COL_ENCODING_PLAIN && col.len() > off + 8 {
                            let (src, n): (NumSource, usize) = get_plain_numbers(
                                self.ints,
                                rows,
                                get_tail(col, off),
                            );
                            return Ok(self.rows(&src, n, del, nulls));
                        }
                        if self.ints {
                            if col.len() < off {
                                return Err(ScanError::Corrupt);
                            }
                            match get_header_misses(
                                encoding,
                                get_tail(col, off),
                                self.test.low_i,
                                self.test.high_i,
                            ) {
                                Err(e) => {
                                    return Err(e);
                                },
                                Ok(true) => {
                                    return Ok(Vec::new());
                                },
                                Ok(false) => {},
                            }
                        }
                    },
                }
            }
        }
        self.walked(c, f, g, rows, del)
    }

    fn group<C: ColumnCodec>(
        &self,
        c: &C,
        f: &V4Footer,
        file: &[u8],
        i: usize,
        out: &mut Vec<u64>,
    ) -> (r: Result<(), ScanError>)
        requires
            i < f.row_groups@.len(),
            self.col < f.schema.columns@.len(),
        ensures
            match r {
                Ok(()) => self@.group(*c, *f, file@, i as int) matches Ok(ids) && final(out)@
                    == old(out)@ + ids,
                Err(e) => self@.group(*c, *f, file@, i as int) == Err::<Seq<u64>, ScanError>(e),
            },
    {
        let meta: RowGroupMeta = f.row_groups[i];
        if meta.row_count == 0 || meta.active_rows() == 0 || self.test.misses(
            f.zone_map(i, self.col, false),
        ) {
            assert(out@ =~= old(out)@ + Seq::empty());
            return Ok(());
        }
        match open_group(c, &meta, file) {
            Err(e) => Err(e),
            Ok(g) => match self.rows_in(c, f, &g, i) {
                Err(e) => Err(e),
                Ok(rows) => {
                    push_ids(&rows, g.body(), meta.min_id, g.ids, out);
                    Ok(())
                },
            },
        }
    }
}

/// The query for identifiers of a range.
pub open spec fn id_query(f: V4Footer, col: usize, low: F64, high: F64) -> IdQuerySeq {
    IdQuerySeq {
        col: col as int,
        ints: is_int(f.schema.kind(col as int)),
        test: range_test(low, high),
    }
}

/// What zone maps tell of a range: rows that can match, rows in all, row groups that can match and
/// whether there was a zone map at all.
pub struct Estimate {
    pub matching: int,
    pub total: int,
    pub groups: int,
    pub seen: bool,
}

/// Whether row group `i` can hold a value in the range.
pub open spec fn may_match(f: V4Footer, col: int, test: TestSeq, i: int) -> bool {
    !test.misses(f.zone(i, col, false)) && f.row_groups@[i].live() > 0
}

/// The estimate over the first `k` row groups.
pub open spec fn estimate(f: V4Footer, col: int, test: TestSeq, k: int) -> Estimate
    decreases k,
{
    if k <= 0 {
        Estimate { matching: 0, total: 0, groups: 0, seen: false }
    } else {
        let e = estimate(f, col, test, k - 1);
        let live = f.row_groups@[k - 1].live();
        let hit = may_match(f, col, test, k - 1);
        Estimate {
            matching: if hit {
                e.matching + live
            } else {
                e.matching
            },
            total: e.total + live,
            groups: if hit {
                e.groups + 1
            } else {
                e.groups
            },
            seen: e.seen || f.zone(k - 1, col, false) is Some,
        }
    }
}

/// A number cut off at the largest double word.
pub open spec fn capped_u64(x: int) -> u64 {
    if x > u64::MAX {
        u64::MAX
    } else {
        x as u64
    }
}

/// A number cut off at the largest word.
pub open spec fn capped_u32(x: int) -> u32 {
    if x > u32::MAX {
        u32::MAX
    } else {
        x as u32
    }
}

fn add_capped(a: u64, b: u32) -> (r: u64)
    ensures
        r == capped_u64(a + b),
{
    if a > u64::MAX - b as u64 {
        u64::MAX
    } else {
        a + b as u64
    }
}

/// An estimate counts nothing below zero.
pub proof fn estimate_bounds(f: V4Footer, col: int, test: TestSeq, k: int)
    requires
        0 <= k,
    ensures
        0 <= estimate(f, col, test, k).matching <= estimate(f, col, test, k).total,
        0 <= estimate(f, col, test, k).groups <= k,
    decreases k,
{
    if k > 0 {
        estimate_bounds(f, col, test, k - 1);
    }
}

impl<C: ColumnCodec> OnDemandStorage<C> {
    /// The identifiers of the rows whose value lies in `low..=high`.
    pub open spec fn range_ids(self, col_name: Seq<char>, low: F64, high: F64) -> Result<
        Option<Seq<u64>>,
        ScanError,
    > {
        match self.footer {
            None => Ok(None),
            Some(f) => match f.schema.index_of(col_name) {
                None => Ok(None),
                Some(col) => {
                    let kind = f.schema.kind(col as int);
                    if !is_int(kind) && !is_float(kind) {
                        Ok(None)
                    } else {
                        match self.file {
                            None => Err(ScanError::NotOpen),
                            Some(file) => match id_query(f, col, low, high).scan(
                                self.codec,
                                f,
                                file@,
                                f.row_groups@.len() as int,
                            ) {
                                Err(e) => Err(e),
                                Ok(ids) => Ok(Some(ids)),
                            },
                        }
                    }
                },
            },
        }
    }

    /// Finds the identifiers of the rows whose value lies in `low..=high`.
    pub fn scan_numeric_range_mmap_with_ids(&self, col_name: &str, low: F64, high: F64) -> (r:
        Result<Option<Vec<u64>>, ScanError>)
        ensures
            ids_view(r) == self.range_ids(col_name@, low, high),
    {
        let f: &V4Footer = match &self.footer {
            None => {
                return Ok(None);
            },
            Some(f) => f,
        };
        let col: usize = match f.schema.get_index(col_name) {
            None => {
                return Ok(None);
            },
            Some(i) => i,
        };
        let kind: ColumnType = f.schema.columns[col].1;
        if !kind.is_int() && !kind.is_float() {
            return Ok(None);
        }
        let file: &[u8] = match &self.file {
            None => {
                return Err(ScanError::NotOpen);
            },
            Some(v) => v.as_slice(),
        };
        let q: IdQuery = IdQuery { col, ints: kind.is_int(), test: NumTest::range(low, high) };
        assert(q@ == id_query(*f, col, low, high));
        let mut out: Vec<u64> = Vec::new();
        let mut i: usize = 0;
        while i < f.row_groups.len()
            invariant
                i <= f.row_groups@.len(),
                col < f.schema.columns@.len(),
                q.col == col,
                q@.scan(self.codec, *f, file@, i as int) == Ok::<Seq<u64>, ScanError>(out@),
                self.footer == Some(*f),
                self.file matches Some(v) && v@ == file@,
                f.schema.index_of(col_name@) == Some(col),
                kind == f.schema.kind(col as int),
                is_int(kind) || is_float(kind),
                q@ == id_query(*f, col, low, high),
            decreases f.row_groups@.len() - i,
        {
            match q.group(&self.codec, f, file, i, &mut out) {
                Err(e) => {
                    proof {
                        q@.scan_failed(self.codec, *f, file@, i + 1, f.row_groups@.len() as int);
                    }
                    return Err(e);
                },
                Ok(()) => {},
            }
            i = i + 1;
        }
        Ok(Some(out))
    }

    /// The estimate for a range.
    pub open spec fn zone_estimate(self, col_name: Seq<char>, low: F64, high: F64) -> Option<
        (u64, u64, u32, u32),
    > {
        match self.footer {
            None => None,
            Some(f) => match f.schema.index_of(col_name) {
                None => None,
                Some(col) => {
                    let n = f.row_groups@.len() as int;
                    let e = estimate(f, col as int, range_test(low, high), n);
                    if e.seen {
                        Some(
                            (
                                capped_u64(e.matching),
                                capped_u64(e.total),
                                capped_u32(e.groups),
                                (n % 0x1_0000_0000) as u32,
                            ),
                        )
                    } else {
                        None
                    }
                },
            },
        }
    }

    /// Tells from the zone maps how many rows and row groups a range can match.
    pub fn estimate_zone_map_range(&self, col_name: &str, low: F64, high: F64) -> (r: Option<
        (u64, u64, u32, u32),
    >)
        ensures
            r == self.zone_estimate(col_name@, low, high),
    {
        let f: &V4Footer = match &self.footer {
            None => {
                return None;
            },
            Some(f) => f,
        };
        let col: usize = match f.schema.get_index(col_name) {
            None => {
                return None;
            },
            Some(i) => i,
        };
        let test: NumTest = NumTest::range(low, high);
        let mut matching: u64 = 0;
        let mut total: u64 = 0;
        let mut groups: u32 = 0;
        let mut seen: bool = false;
        let mut i: usize = 0;
        while i < f.row_groups.len()
            invariant
                i <= f.row_groups@.len(),
                test@ == range_test(low, high),
                matching == capped_u64(estimate(*f, col as int, test@, i as int).matching),
                total == capped_u64(estimate(*f, col as int, test@, i as int).total),
                groups == capped_u32(estimate(*f, col as int, test@, i as int).groups),
                seen == estimate(*f, col as int, test@, i as int).seen,
            decreases f.row_groups@.len() - i,
        {
            proof {
                estimate_bounds(*f, col as int, test@, i as int);
            }
            let active: u32 = f.row_groups[i].active_rows();
            total = add_capped(total, active);
            let zone: Option<ZoneMap> = f.zone_map(i, col, false);
            if zone.is_some() {
                seen = true;
            }
            if !test.misses(zone) && active > 0 {
                matching = add_capped(matching, active);
                if groups < u32::MAX {
                    groups = groups + 1;
                }
            }
            i = i + 1;
        }
        if seen {
            Some(
                (
                    matching,
                    total,
                    groups,
                    (f.row_groups.len() as u64 % 0x1_0000_0000) as u32,
                ),
            )
        } else {
            None
        }
    }
}

} // verus!
