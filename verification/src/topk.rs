//! The rows with the largest or smallest numbers, and those with the longest or shortest strings.

use vstd::prelude::*;

use crate::bytes::{bitmap_len, i64_le, read_i64};
use crate::codec::ColumnCodec;
use crate::column::{ColumnData, ColumnSeq};
use crate::double::{bits_of_i64, F64};
use crate::group::{
    get_tail, get_window, group_of, id_section, open_group, rg_bitmap_len, rg_id_section_len, tail,
    walk, walk_columns, window, Group, GroupSeq,
};
use crate::model::{
    is_float, is_int, rows_before, rows_before_monotonic, ColumnType, RowGroupMeta, ScanError,
    V4Footer, COL_ENCODING_PLAIN, RG_COMPRESS_NONE,
};
use crate::numeric::{
    encoding_of, f64_le, get_encoding, get_plain_numbers, get_tag_len, is_open, min2, min_u64,
    plain_numbers, read_f64, row_open, slice_view, tag_len, NumSeq, NumSource,
};
use crate::ranking::{Candidate, Preference};
use crate::storage::OnDemandStorage;

verus! {

/// The double nearest to an integer.
pub open spec fn real_of(v: int) -> F64 {
    F64 { bits: bits_of_i64(v) as u64 }
}

impl NumSeq {
    /// The number in row `i`, as a double.
    pub open spec fn real_at(self, i: int) -> F64 {
        match self {
            NumSeq::PlainInt(s) => real_of(i64_le(s, i * 8)),
            NumSeq::PlainReal(s) => f64_le(s, i * 8),
            NumSeq::Ints(v) => real_of(v[i] as int),
            NumSeq::Reals(v) => v[i],
            _ => real_of(0),
        }
    }
}

impl<'a> NumSource<'a> {
    /// The number in row `i`, as a double.
    pub fn real_at(&self, i: usize) -> (r: F64)
        requires
            self@.covers(i + 1),
        ensures
            r == self@.real_at(i as int),
    {
        match self {
            NumSource::PlainInt(s) => {
                assert((i + 1) * 8 <= s.len());
                F64::from_i64(read_i64(s, i * 8))
            },
            NumSource::PlainReal(s) => {
                assert((i + 1) * 8 <= s.len());
                read_f64(s, i * 8)
            },
            NumSource::Ints(v) => F64::from_i64(v[i]),
            NumSource::Reals(v) => v[i],
            _ => F64::from_i64(0),
        }
    }
}

/// The candidates among the first `n` rows: those that are not deleted, with their number.
pub open spec fn value_candidates(src: NumSeq, del: Option<Seq<u8>>, base: int, n: int) -> Seq<
    Candidate,
>
    decreases n,
{
    if n <= 0 {
        Seq::empty()
    } else {
        let before = value_candidates(src, del, base, n - 1);
        if row_open(del, None, n - 1) {
            before.push(
                Candidate { length: 0, value: src.real_at(n - 1), row: (base + n - 1) as usize },
            )
        } else {
            before
        }
    }
}

/// Offers the candidates among the first `n` rows.
fn offer_values(
    p: Preference,
    k: usize,
    src: &NumSource,
    del: Option<&[u8]>,
    base: usize,
    n: usize,
    best: &mut Vec<Candidate>,
)
    requires
        0 < k,
        old(best)@.len() <= k,
        src@.covers(n as int),
        base + n <= usize::MAX,
    ensures
        final(best)@ == p.enter_all(
            old(best)@,
            value_candidates(src@, slice_view(del), base as int, n as int),
            k as int,
        ),
        final(best)@.len() <= k,
{
    let mut i: usize = 0;
    while i < n
        invariant
            i <= n,
            0 < k,
            best@.len() <= k,
            src@.covers(n as int),
            base + n <= usize::MAX,
            best@ == p.enter_all(
                old(best)@,
                value_candidates(src@, slice_view(del), base as int, i as int),
                k as int,
            ),
        decreases n - i,
    {
        let ghost before = value_candidates(src@, slice_view(del), base as int, i as int);
        if is_open(del, None, i) {
            let x: Candidate = Candidate { length: 0, value: src.real_at(i), row: base + i };
            proof {
                assert(before.push(x).drop_last() =~= before);
            }
            p.offer(best, x, k);
        }
        i = i + 1;
    }
}

/// The bytes of a column in a row group: from its place on record where the row group is not
/// compressed, behind the columns before it otherwise. `None` where there are none.
pub open spec fn located<C: ColumnCodec>(
    c: C,
    f: V4Footer,
    g: GroupSeq,
    col: int,
    i: int,
) -> Result<Option<Seq<u8>>, ScanError> {
    let rows = f.row_groups@[i].row_count as int;
    let bm = bitmap_len(rows);
    let found = match f.rcix(i, col) {
        Some(o) if g.flag == RG_COMPRESS_NONE => Ok(
            if o + bm > g.body.len() {
                None
            } else {
                Some(o)
            },
        ),
        _ => walk(c, f.schema, g.version >= 1, g.body, bm, 0, id_section(rows, g.ids) + bm, col),
    };
    match found {
        Err(e) => Err(e),
        Ok(None) => Ok(None),
        Ok(Some(o)) => if o + bm == g.body.len() {
            Ok(None)
        } else {
            Ok(Some(tail(g.body, o + bm)))
        },
    }
}

/// Finds the bytes of a column in a row group.
fn locate<'a, C: ColumnCodec>(c: &C, f: &V4Footer, g: &'a Group<'a>, col: usize, i: usize) -> (r:
    Result<Option<&'a [u8]>, ScanError>)
    requires
        i < f.row_groups@.len(),
        col < f.schema.columns@.len(),
    ensures
        match r {
            Err(e) => located(*c, *f, g@, col as int, i as int) == Err::<
                Option<Seq<u8>>,
                ScanError,
            >(e),
            Ok(None) => located(*c, *f, g@, col as int, i as int) == Ok::<
                Option<Seq<u8>>,
                ScanError,
            >(None),
            Ok(Some(s)) => located(*c, *f, g@, col as int, i as int) == Ok::<
                Option<Seq<u8>>,
                ScanError,
            >(Some(s@)) && s@.len() > 0,
        },
{
    let rows: u32 = f.row_groups[i].row_count;
    let bm: u64 = rg_bitmap_len(rows);
    let body: &[u8] = g.body();
    let at: usize = match f.column_offset(i, col) {
        Some(o) if g.flag == RG_COMPRESS_NONE => {
            if o as u64 + bm > body.len() as u64 {
                return Ok(None);
            }
            o as usize
        },
        _ => match walk_columns(
            c,
            &f.schema,
            g.version >= 1,
            body,
            bm,
            0,
            rg_id_section_len(rows, g.ids) + bm,
            col,
        ) {
            Err(e) => {
                return Err(e);
            },
            Ok(None) => {
                return Ok(None);
            },
            Ok(Some(p)) => p,
        },
    };
    let start: usize = (at as u64 + bm) as usize;
    if start == body.len() {
        return Ok(None);
    }
    Ok(Some(get_tail(body, start)))
}

/// The numbers behind the bytes of a column, and how many of them stand for rows. A plain column
/// with numbers is read in place. `None` where the column holds no numbers.
pub open spec fn ranked_numbers<C: ColumnCodec>(
    c: C,
    kind: ColumnType,
    version: u8,
    rows: int,
    col: Seq<u8>,
) -> Result<Option<(NumSeq, int)>, ScanError> {
    if encoding_of(version, col) == COL_ENCODING_PLAIN && col.len() > tag_len(version) + 8 {
        Ok(Some(plain_numbers(!is_float(kind), rows, tail(col, tag_len(version)))))
    } else {
        match c.decoded(version >= 1, col, kind) {
            None => Err(ScanError::Codec),
            Some((ColumnSeq::Int64(v), _)) => Ok(
                Some((NumSeq::Ints(v), min2(v.len() as int, rows))),
            ),
            Some((ColumnSeq::Float64(v), _)) => Ok(
                Some((NumSeq::Reals(v), min2(v.len() as int, rows))),
            ),
            Some(_) => Ok(None),
        }
    }
}

/// The best `k` of some more rows.
pub open spec fn top_of(
    p: Preference,
    k: int,
    best: Seq<Candidate>,
    numbers: Result<Option<(NumSeq, int)>, ScanError>,
    del: Option<Seq<u8>>,
    base: int,
) -> Result<Seq<Candidate>, ScanError> {
    match numbers {
        Err(e) => Err(e),
        Ok(None) => Ok(best),
        Ok(Some((src, n))) => Ok(p.enter_all(best, value_candidates(src, del, base, n), k)),
    }
}

/// The best `k` of the first `n` row groups by their number.
pub open spec fn top_values<C: ColumnCodec>(
    c: C,
    f: V4Footer,
    file: Seq<u8>,
    col: int,
    p: Preference,
    k: int,
    n: int,
) -> Result<Seq<Candidate>, ScanError>
    decreases n,
{
    if n <= 0 {
        Ok(Seq::empty())
    } else {
        let meta = f.row_groups@[n - 1];
        let rows = meta.row_count as int;
        match (top_values(c, f, file, col, p, k, n - 1), group_of(c, meta, file)) {
            (Err(e), _) => Err(e),
            (Ok(best), g) => if rows == 0 {
                Ok(best)
            } else {
                match g {
                    Err(e) => Err(e),
                    Ok(g) => match located(c, f, g, col, n - 1) {
                        Err(e) => Err(e),
                        Ok(None) => Ok(best),
                        Ok(Some(s)) => top_of(
                            p,
                            k,
                            best,
                            ranked_numbers(c, f.schema.kind(col), g.version, rows, s),
                            if meta.deletion_count > 0 {
                                window(g.body, id_section(rows, g.ids), bitmap_len(rows))
                            } else {
                                None
                            },
                            rows_before(f.row_groups@, n - 1),
                        ),
                    },
                }
            },
        }
    }
}

proof fn top_values_failed<C: ColumnCodec>(
    c: C,
    f: V4Footer,
    file: Seq<u8>,
    col: int,
    p: Preference,
    k: int,
    j: int,
    n: int,
)
    requires
        0 <= j <= n,
        top_values(c, f, file, col, p, k, j) is Err,
    ensures
        top_values(c, f, file, col, p, k, n) == top_values(c, f, file, col, p, k, j),
    decreases n,
{
    if j < n {
        top_values_failed(c, f, file, col, p, k, j, n - 1);
    }
}

/// Whether a step gave `want`, with what is best so far in `best`.
pub open spec fn ranked(
    r: Result<(), ScanError>,
    best: Seq<Candidate>,
    want: Result<Seq<Candidate>, ScanError>,
) -> bool {
    match r {
        Err(e) => want == Err::<Seq<Candidate>, ScanError>(e),
        Ok(_) => want == Ok::<Seq<Candidate>, ScanError>(best),
    }
}

fn offer_column<C: ColumnCodec>(
    c: &C,
    kind: ColumnType,
    version: u8,
    rows: u32,
    col: &[u8],
    p: Preference,
    k: usize,
    del: Option<&[u8]>,
    base: usize,
    best: &mut Vec<Candidate>,
) -> (r: Result<(), ScanError>)
    requires
        0 < k,
        old(best)@.len() <= k,
        base + rows <= usize::MAX,
    ensures
        ranked(
            r,
            final(best)@,
            top_of(
                p,
                k as int,
                old(best)@,
                ranked_numbers(*c, kind, version, rows as int, col@),
                slice_view(del),
                base as int,
            ),
        ),
        final(best)@.len() <= k,
{
    let tag: usize = get_tag_len(version);
    if get_encoding(version, col) == COL_ENCODING_PLAIN && col.len() > tag + 8 {
        let (src, n): (NumSource, usize) = get_plain_numbers(
            !kind.is_float(),
            rows,
            get_tail(col, tag),
        );
        offer_values(p, k, &src, del, base, n, best);
        return Ok(());
    }
    match c.read_column(version >= 1, col, kind) {
        None => {
            return Err(ScanError::Codec);
        },
        Some((ColumnData::Int64(v), _)) => {
            let n: usize = min_u64(v.len() as u64, rows as u64) as usize;
            let src: NumSource = NumSource::Ints(&v);
            offer_values(p, k, &src, del, base, n, best);
        },
        Some((ColumnData::Float64(v), _)) => {
            let n: usize = min_u64(v.len() as u64, rows as u64) as usize;
            let src: NumSource = NumSource::Reals(&v);
            offer_values(p, k, &src, del, base, n, best);
        },
        Some(_) => {},
    }
    Ok(())
}

/// The rows and numbers of candidates.
pub open spec fn rows_and_values(best: Seq<Candidate>) -> Seq<(usize, F64)> {
    Seq::new(best.len(), |i: int| (best[i].row, best[i].value))
}

/// A ranking as sequences.
pub open spec fn ranking_view(r: Result<Option<Vec<(usize, F64)>>, ScanError>) -> Result<
    Option<Seq<(usize, F64)>>,
    ScanError,
> {
    match r {
        Err(e) => Err(e),
        Ok(None) => Ok(None),
        Ok(Some(v)) => Ok(Some(v@)),
    }
}

impl<C: ColumnCodec> OnDemandStorage<C> {
    /// What asking for the rows with the largest or smallest numbers gives.
    pub open spec fn top_k_values(self, col_name: Seq<char>, k: usize, descending: bool) -> Result<
        Option<Seq<(usize, F64)>>,
        ScanError,
    > {
        if k == 0 {
            Ok(Some(Seq::empty()))
        } else {
            match self.footer {
                None => Ok(None),
                Some(f) => match f.schema.index_of(col_name) {
                    None => Ok(None),
                    Some(col) => {
                        let kind = f.schema.kind(col as int);
                        if !(is_int(kind) || is_float(kind)) {
                            Ok(None)
                        } else {
                            match self.file {
                                None => Err(ScanError::NotOpen),
                                Some(file) => match top_values(
                                    self.codec,
                                    f,
                                    file@,
                                    col as int,
                                    Preference::Value { descending },
                                    k as int,
                                    f.row_groups@.len() as int,
                                ) {
                                    Err(e) => Err(e),
                                    Ok(best) => Ok(Some(rows_and_values(best))),
                                },
                            }
                        }
                    },
                },
            }
        }
    }

    /// Finds the `k` rows with the largest or smallest numbers, best first, with those numbers.
    pub fn scan_top_k_indices_mmap(&self, col_name: &str, k: usize, descending: bool) -> (r: Result<
        Option<Vec<(usize, F64)>>,
        ScanError,
    >)
        requires
            self.wf(),
        ensures
            ranking_view(r) == self.top_k_values(col_name@, k, descending),
    {
        if k == 0 {
            let none: Vec<(usize, F64)> = Vec::new();
            return Ok(Some(none));
        }
        let f: &V4Footer = match &self.footer {
            None => {
                return Ok(None);
            },
            Some(f) => f,
        };
        let col: usize = match f.schema.get_index(col_name) {
            None => {
                return Ok(None);
            },
            Some(i) => i,
        };
        let kind: ColumnType = f.schema.columns[col].1;
        if !(kind.is_int() || kind.is_float()) {
            return Ok(None);
        }
        let file: &[u8] = match &self.file {
            None => {
                return Err(ScanError::NotOpen);
            },
            Some(v) => v.as_slice(),
        };
        let c: &C = &self.codec;
        let p: Preference = Preference::Value { descending };
        let ghost total = f.row_groups@.len() as int;
        let mut best: Vec<Candidate> = Vec::new();
        let mut base: usize = 0;
        let mut i: usize = 0;
        while i < f.row_groups.len()
            invariant
                i <= f.row_groups@.len(),
                total == f.row_groups@.len(),
                0 < k,
                f.wf(),
                col < f.schema.columns@.len(),
                kind == f.schema.kind(col as int),
                is_int(kind) || is_float(kind),
                f.schema.index_of(col_name@) == Some(col),
                self.footer == Some(*f),
                self.file matches Some(v) && v@ == file@,
                *c == self.codec,
                p == (Preference::Value { descending }),
                base == rows_before(f.row_groups@, i as int),
                best@.len() <= k,
                top_values(*c, *f, file@, col as int, p, k as int, i as int) == Ok::<
                    Seq<Candidate>,
                    ScanError,
                >(best@),
            decreases f.row_groups@.len() - i,
        {
            let meta: RowGroupMeta = f.row_groups[i];
            proof {
                rows_before_monotonic(f.row_groups@, i + 1, total);
            }
            if meta.row_count > 0 {
                let g: Group = match open_group(c, &meta, file) {
                    Err(e) => {
                        proof {
                            top_values_failed(
                                *c,
                                *f,
                                file@,
                                col as int,
                                p,
                                k as int,
                                i + 1,
                                total,
                            );
                        }
                        return Err(e);
                    },
                    Ok(g) => g,
                };
                let del: Option<&[u8]> = if meta.deletion_count > 0 {
                    get_window(
                        g.body(),
                        rg_id_section_len(meta.row_count, g.ids),
                        rg_bitmap_len(meta.row_count),
                    )
                } else {
                    None
                };
                match locate(c, f, &g, col, i) {
                    Err(e) => {
                        proof {
                            top_values_failed(
                                *c,
                                *f,
                                file@,
                                col as int,
                                p,
                                k as int,
                                i + 1,
                                total,
                            );
                        }
                        return Err(e);
                    },
                    Ok(None) => {},
                    Ok(Some(s)) => {
                        match offer_column(
                            c,
                            kind,
                            g.version,
                            meta.row_count,
                            s,
                            p,
                            k,
                            del,
                            base,
                            &mut best,
                        ) {
                            Err(e) => {
                                proof {
                                    top_values_failed(
                                        *c,
                                        *f,
                                        file@,
                                        col as int,
                                        p,
                                        k as int,
                                        i + 1,
                                        total,
                                    );
                                }
                                return Err(e);
                            },
                            Ok(_) => {},
                        }
                    },
                }
            }
            base = base + meta.row_count as usize;
            i = i + 1;
        }
        let mut out: Vec<(usize, F64)> = Vec::with_capacity(best.len());
        let mut j: usize = 0;
        while j < best.len()
            invariant
                j <= best@.len(),
                out@ =~= rows_and_values(best@).take(j as int),
            decreases best@.len() - j,
        {
            out.push((best[j].row, best[j].value));
            j = j + 1;
        }
        assert(out@ =~= rows_and_values(best@));
        Ok(Some(out))
    }
}

} // verus!
