//! Statistics of a column of numbers.

use vstd::prelude::*;

use crate::bytes::bitmap_len;
use crate::codec::ColumnCodec;
use crate::column::{ColumnData, ColumnSeq};
use crate::double::{is_nan, le, lt, F64};
use crate::group::{
    get_tail, get_window, group_of, id_section, open_group, rg_bitmap_len, rg_id_section_len, tail,
    walk, walk_columns, window, Group, GroupSeq,
};
use crate::model::{
    is_float, is_int, ColumnType, RowGroupMeta, ScanError, V4Footer, COL_ENCODING_PLAIN,
};
use crate::numeric::{
    encoding_of, get_encoding, get_plain_numbers, get_tag_len, is_open, plain_numbers, row_open,
    slice_view, tag_len, NumSeq, NumSource,
};
use crate::storage::OnDemandStorage;

verus! {

/// The numbers of a column that count, with the smallest and the largest of them. The sum is that
/// of `addends`, added up in their order.
#[derive(Debug, PartialEq, Eq)]
pub struct ColumnStats {
    pub addends: Vec<F64>,
    pub min: F64,
    pub max: F64,
}

/// The numbers of a column that count, with the smallest and the largest of them.
#[verifier::ext_equal]
pub struct StatsSeq {
    pub addends: Seq<F64>,
    pub min: F64,
    pub max: F64,
}

impl View for ColumnStats {
    type V = StatsSeq;

    open spec fn view(&self) -> StatsSeq {
        StatsSeq { addends: self.addends@, min: self.min, max: self.max }
    }
}

/// Above every number.
pub const INFINITY: u64 = 0x7ff0_0000_0000_0000;

/// Below every number.
pub const NEG_INFINITY: u64 = 0xfff0_0000_0000_0000;

/// The first of the smallest numbers.
pub open spec fn smallest(v: Seq<F64>) -> F64
    decreases v.len(),
{
    if v.len() == 0 {
        F64 { bits: INFINITY }
    } else if lt(v.last(), smallest(v.drop_last())) {
        v.last()
    } else {
        smallest(v.drop_last())
    }
}

/// The first of the largest numbers.
pub open spec fn largest(v: Seq<F64>) -> F64
    decreases v.len(),
{
    if v.len() == 0 {
        F64 { bits: NEG_INFINITY }
    } else if lt(largest(v.drop_last()), v.last()) {
        v.last()
    } else {
        largest(v.drop_last())
    }
}

/// The statistics of some numbers: zeros where there are none.
pub open spec fn stats_of(v: Seq<F64>) -> StatsSeq {
    if v.len() == 0 {
        StatsSeq { addends: v, min: F64 { bits: 0 }, max: F64 { bits: 0 } }
    } else {
        StatsSeq { addends: v, min: smallest(v), max: largest(v) }
    }
}

/// Numbers lie between the smallest and the largest of them.
pub proof fn law_stats_bounds(v: Seq<F64>, i: int)
    requires
        forall|k: int| 0 <= k < v.len() ==> !is_nan((#[trigger] v[k]).bits),
        0 <= i < v.len(),
    ensures
        le(stats_of(v).min, v[i]),
        le(v[i], stats_of(v).max),
    decreases v.len(),
{
    let w = v.drop_last();
    extremes_are_numbers(w);
    assert(!is_nan(v[v.len() - 1].bits));
    if i < v.len() - 1 {
        assert forall|k: int| 0 <= k < w.len() implies !is_nan((#[trigger] w[k]).bits) by {
            assert(w[k] == v[k]);
        }
        law_stats_bounds(w, i);
        assert(w[i] == v[i]);
    }
}

proof fn extremes_are_numbers(v: Seq<F64>)
    requires
        forall|k: int| 0 <= k < v.len() ==> !is_nan((#[trigger] v[k]).bits),
    ensures
        !is_nan(smallest(v).bits),
        !is_nan(largest(v).bits),
        v.len() == 0 || smallest(v).bits == INFINITY || exists|i: int|
            0 <= i < v.len() && #[trigger] v[i] == smallest(v),
        v.len() == 0 || largest(v).bits == NEG_INFINITY || exists|i: int|
            0 <= i < v.len() && #[trigger] v[i] == largest(v),
    decreases v.len(),
{
    if v.len() > 0 {
        let w = v.drop_last();
        assert forall|k: int| 0 <= k < w.len() implies !is_nan((#[trigger] w[k]).bits) by {
            assert(w[k] == v[k]);
        }
        extremes_are_numbers(w);
        assert(v[v.len() - 1] == v.last());
        if exists|i: int| 0 <= i < w.len() && #[trigger] w[i] == smallest(w) {
            let i = choose|i: int| 0 <= i < w.len() && #[trigger] w[i] == smallest(w);
            assert(v[i] == smallest(w));
        }
        if exists|i: int| 0 <= i < w.len() && #[trigger] w[i] == largest(w) {
            let i = choose|i: int| 0 <= i < w.len() && #[trigger] w[i] == largest(w);
            assert(v[i] == largest(w));
        }
    }
}

/// `acc` with the numbers of the first `n` rows that count: of open rows, leaving out doubles that
/// are no numbers. Rows from `rows` on are open.
pub open spec fn addends_of(
    src: NumSeq,
    del: Option<Seq<u8>>,
    nulls: Seq<u8>,
    rows: int,
    acc: Seq<F64>,
    n: int,
) -> Seq<F64>
    decreases n,
{
    if n <= 0 {
        acc
    } else {
        let before = addends_of(src, del, nulls, rows, acc, n - 1);
        if (n - 1 >= rows || row_open(del, Some(nulls), n - 1)) && !is_nan(
            src.real_at(n - 1).bits,
        ) {
            before.push(src.real_at(n - 1))
        } else {
            before
        }
    }
}

fn add_addends(
    src: &NumSource,
    del: Option<&[u8]>,
    nulls: &[u8],
    rows: u32,
    acc: &mut Vec<F64>,
    n: usize,
)
    requires
        src@.covers(n as int),
    ensures
        final(acc)@ == addends_of(
            src@,
            slice_view(del),
            nulls@,
            rows as int,
            old(acc)@,
            n as int,
        ),
{
    let mut i: usize = 0;
    while i < n
        invariant
            i <= n,
            src@.covers(n as int),
            acc@ == addends_of(
                src@,
                slice_view(del),
                nulls@,
                rows as int,
                old(acc)@,
                i as int,
            ),
        decreases n - i,
    {
        if i as u64 >= rows as u64 || is_open(del, Some(nulls), i) {
            let v: F64 = src.real_at(i);
            if !v.is_nan() {
                acc.push(v);
            }
        }
        i = i + 1;
    }
}

/// `acc` with the numbers of a column that count.
pub open spec fn column_addends<C: ColumnCodec>(
    c: C,
    kind: ColumnType,
    version: u8,
    rows: int,
    del: Option<Seq<u8>>,
    nulls: Seq<u8>,
    col: Seq<u8>,
    acc: Seq<F64>,
) -> Result<Seq<F64>, ScanError> {
    if version >= 1 && col.len() == 0 {
        Err(ScanError::Corrupt)
    } else if encoding_of(version, col) == COL_ENCODING_PLAIN {
        let data = tail(col, tag_len(version));
        if data.len() < 8 {
            Ok(acc)
        } else {
            let (src, n) = plain_numbers(is_int(kind), rows, data);
            Ok(addends_of(src, del, nulls, rows, acc, n))
        }
    } else {
        match c.decoded(version >= 1, col, kind) {
            None => Err(ScanError::Codec),
            Some((ColumnSeq::Int64(v), _)) => Ok(
                addends_of(NumSeq::Ints(v), del, nulls, rows, acc, v.len() as int),
            ),
            Some((ColumnSeq::Float64(v), _)) => Ok(
                addends_of(NumSeq::Reals(v), del, nulls, rows, acc, v.len() as int),
            ),
            Some(_) => Ok(acc),
        }
    }
}

/// Whether a step gave `want`, with what it collected in `acc`.
pub open spec fn collected(
    r: Result<(), ScanError>,
    acc: Seq<F64>,
    want: Result<Seq<F64>, ScanError>,
) -> bool {
    match r {
        Err(e) => want == Err::<Seq<F64>, ScanError>(e),
        Ok(_) => want == Ok::<Seq<F64>, ScanError>(acc),
    }
}

fn add_column<C: ColumnCodec>(
    c: &C,
    kind: ColumnType,
    version: u8,
    rows: u32,
    del: Option<&[u8]>,
    nulls: &[u8],
    col: &[u8],
    acc: &mut Vec<F64>,
) -> (r: Result<(), ScanError>)
    ensures
        collected(
            r,
            final(acc)@,
            column_addends(
                *c,
                kind,
                version,
                rows as int,
                slice_view(del),
                nulls@,
                col@,
                old(acc)@,
            ),
        ),
{
    if version >= 1 && col.len() == 0 {
        return Err(ScanError::Corrupt);
    }
    if get_encoding(version, col) == COL_ENCODING_PLAIN {
        let data: &[u8] = get_tail(col, get_tag_len(version));
        if data.len() >= 8 {
            let (src, n): (NumSource, usize) = get_plain_numbers(kind.is_int(), rows, data);
            add_addends(&src, del, nulls, rows, acc, n);
        }
        return Ok(());
    }
    match c.read_column(version >= 1, col, kind) {
        None => {
            return Err(ScanError::Codec);
        },
        Some((ColumnData::Int64(v), _)) => {
            let src: NumSource = NumSource::Ints(&v);
            add_addends(&src, del, nulls, rows, acc, v.len());
        },
        Some((ColumnData::Float64(v), _)) => {
            let src: NumSource = NumSource::Reals(&v);
            add_addends(&src, del, nulls, rows, acc, v.len());
        },
        Some(_) => {},
    }
    Ok(())
}

/// `acc` with the numbers of a row group that count. The columns are walked to the end of the body.
pub open spec fn group_addends<C: ColumnCodec>(
    c: C,
    f: V4Footer,
    meta: RowGroupMeta,
    g: GroupSeq,
    col: int,
    acc: Seq<F64>,
) -> Result<Seq<F64>, ScanError> {
    let rows = meta.row_count as int;
    let bm = bitmap_len(rows);
    let start = id_section(rows, g.ids);
    let count = f.schema.columns@.len() as int;
    match window(g.body, start, bm) {
        None => Err(ScanError::DeletionsTruncated),
        Some(deleted) => match walk(
            c,
            f.schema,
            g.version >= 1,
            g.body,
            bm,
            0,
            start + bm,
            col,
        ) {
            Err(e) => Err(e),
            Ok(None) => Ok(acc),
            Ok(Some(p)) => match column_addends(
                c,
                f.schema.kind(col),
                g.version,
                rows,
                if meta.deletion_count > 0 {
                    Some(deleted)
                } else {
                    None
                },
                g.body.subrange(p, p + bm),
                tail(g.body, p + bm),
                acc,
            ) {
                Err(e) => Err(e),
                Ok(v) => match walk(c, f.schema, g.version >= 1, g.body, bm, col, p, count) {
                    Err(e) => Err(e),
                    Ok(_) => Ok(v),
                },
            },
        },
    }
}

fn add_group<C: ColumnCodec>(
    c: &C,
    f: &V4Footer,
    meta: &RowGroupMeta,
    g: &Group,
    col: usize,
    acc: &mut Vec<F64>,
) -> (r: Result<(), ScanError>)
    requires
        col < f.schema.columns@.len(),
    ensures
        collected(r, final(acc)@, group_addends(*c, *f, *meta, g@, col as int, old(acc)@)),
{
    let bm: u64 = rg_bitmap_len(meta.row_count);
    let start: u64 = rg_id_section_len(meta.row_count, g.ids);
    let body: &[u8] = g.body();
    let deleted: &[u8] = match get_window(body, start, bm) {
        None => {
            return Err(ScanError::DeletionsTruncated);
        },
        Some(w) => w,
    };
    let p: usize = match walk_columns(
        c,
        &f.schema,
        g.version >= 1,
        body,
        bm,
        0,
        start + bm,
        col,
    ) {
        Err(e) => {
            return Err(e);
        },
        Ok(None) => {
            return Ok(());
        },
        Ok(Some(p)) => p,
    };
    let at: usize = (p as u64 + bm) as usize;
    let del: Option<&[u8]> = if meta.deletion_count > 0 {
        Some(deleted)
    } else {
        None
    };
    match add_column(
        c,
        f.schema.columns[col].1,
        g.version,
        meta.row_count,
        del,
        vstd::slice::slice_subrange(body, p, at),
        get_tail(body, at),
        acc,
    ) {
        Err(e) => {
            return Err(e);
        },
        Ok(_) => {},
    }
    match walk_columns(
        c,
        &f.schema,
        g.version >= 1,
        body,
        bm,
        col,
        p as u64,
        f.schema.columns.len(),
    ) {
        Err(e) => Err(e),
        Ok(_) => Ok(()),
    }
}

/// The numbers of the first `n` row groups that count.
pub open spec fn all_addends<C: ColumnCodec>(c: C, f: V4Footer, file: Seq<u8>, col: int, n: int) -> Result<
    Seq<F64>,
    ScanError,
>
    decreases n,
{
    if n <= 0 {
        Ok(Seq::empty())
    } else {
        let meta = f.row_groups@[n - 1];
        match all_addends(c, f, file, col, n - 1) {
            Err(e) => Err(e),
            Ok(acc) => if meta.row_count == 0 {
                Ok(acc)
            } else {
                match group_of(c, meta, file) {
                    Err(e) => Err(e),
                    Ok(g) => group_addends(c, f, meta, g, col, acc),
                }
            },
        }
    }
}

proof fn all_addends_failed<C: ColumnCodec>(
    c: C,
    f: V4Footer,
    file: Seq<u8>,
    col: int,
    j: int,
    n: int,
)
    requires
        0 <= j <= n,
        all_addends(c, f, file, col, j) is Err,
    ensures
        all_addends(c, f, file, col, n) == all_addends(c, f, file, col, j),
    decreases n,
{
    if j < n {
        all_addends_failed(c, f, file, col, j, n - 1);
    }
}

fn collect<C: ColumnCodec>(c: &C, f: &V4Footer, file: &[u8], col: usize) -> (r: Result<
    Vec<F64>,
    ScanError,
>)
    requires
        col < f.schema.columns@.len(),
    ensures
        match r {
            Err(e) => all_addends(
                *c,
                *f,
                file@,
                col as int,
                f.row_groups@.len() as int,
            ) == Err::<Seq<F64>, ScanError>(e),
            Ok(v) => all_addends(
                *c,
                *f,
                file@,
                col as int,
                f.row_groups@.len() as int,
            ) == Ok::<Seq<F64>, ScanError>(v@),
        },
{
    let ghost n = f.row_groups@.len() as int;
    let mut acc: Vec<F64> = Vec::new();
    let mut i: usize = 0;
    while i < f.row_groups.len()
        invariant
            i <= f.row_groups@.len(),
            n == f.row_groups@.len(),
            col < f.schema.columns@.len(),
            all_addends(*c, *f, file@, col as int, i as int) == Ok::<Seq<F64>, ScanError>(acc@),
        decreases f.row_groups@.len() - i,
    {
        let meta: RowGroupMeta = f.row_groups[i];
        if meta.row_count > 0 {
            let step: Result<(), ScanError> = match open_group(c, &meta, file) {
                Err(e) => Err(e),
                Ok(g) => add_group(c, f, &meta, &g, col, &mut acc),
            };
            match step {
                Err(e) => {
                    proof {
                        all_addends_failed(*c, *f, file@, col as int, i + 1, n);
                    }
                    return Err(e);
                },
                Ok(_) => {},
            }
        }
        i = i + 1;
    }
    Ok(acc)
}

fn get_smallest(v: &Vec<F64>) -> (r: F64)
    ensures
        r == smallest(v@),
{
    let mut m: F64 = F64::from_bits(INFINITY);
    let mut i: usize = 0;
    assert(v@.take(0) =~= Seq::<F64>::empty());
    while i < v.len()
        invariant
            i <= v@.len(),
            m == smallest(v@.take(i as int)),
        decreases v@.len() - i,
    {
        proof {
            assert(v@.take(i + 1).drop_last() =~= v@.take(i as int));
        }
        if v[i].lt(m) {
            m = v[i];
        }
        i = i + 1;
    }
    assert(v@.take(v@.len() as int) =~= v@);
    m
}

fn get_largest(v: &Vec<F64>) -> (r: F64)
    ensures
        r == largest(v@),
{
    let mut m: F64 = F64::from_bits(NEG_INFINITY);
    let mut i: usize = 0;
    assert(v@.take(0) =~= Seq::<F64>::empty());
    while i < v.len()
        invariant
            i <= v@.len(),
            m == largest(v@.take(i as int)),
        decreases v@.len() - i,
    {
        proof {
            assert(v@.take(i + 1).drop_last() =~= v@.take(i as int));
        }
        if m.lt(v[i]) {
            m = v[i];
        }
        i = i + 1;
    }
    assert(v@.take(v@.len() as int) =~= v@);
    m
}

/// Statistics as sequences.
pub open spec fn stats_view(r: Result<Option<ColumnStats>, ScanError>) -> Result<
    Option<StatsSeq>,
    ScanError,
> {
    match r {
        Err(e) => Err(e),
        Ok(None) => Ok(None),
        Ok(Some(s)) => Ok(Some(s@)),
    }
}

impl<C: ColumnCodec> OnDemandStorage<C> {
    /// What the statistics of a column are.
    pub open spec fn column_stats(self, col_name: Seq<char>) -> Result<Option<StatsSeq>, ScanError> {
        match self.footer {
            None => Ok(None),
            Some(f) => match f.schema.index_of(col_name) {
                None => Ok(None),
                Some(col) => {
                    let kind = f.schema.kind(col as int);
                    if !(is_int(kind) || is_float(kind)) {
                        Ok(None)
                    } else {
                        match self.file {
                            None => Err(ScanError::NotOpen),
                            Some(file) => match all_addends(
                                self.codec,
                                f,
                                file@,
                                col as int,
                                f.row_groups@.len() as int,
                            ) {
                                Err(e) => Err(e),
                                Ok(v) => Ok(Some(stats_of(v))),
                            },
                        }
                    }
                },
            },
        }
    }

    /// Collects the numbers of a column that count, with the smallest and the largest of them.
    pub fn compute_column_stats_mmap(&self, col_name: &str) -> (r: Result<
        Option<ColumnStats>,
        ScanError,
    >)
        ensures
            stats_view(r) == self.column_stats(col_name@),
    {
        let f: &V4Footer = match &self.footer {
            None => {
                return Ok(None);
            },
            Some(f) => f,
        };
        let col: usize = match f.schema.get_index(col_name) {
            None => {
                return Ok(None);
            },
            Some(i) => i,
        };
        let kind: ColumnType = f.schema.columns[col].1;
        if !(kind.is_int() || kind.is_float()) {
            return Ok(None);
        }
        let file: &[u8] = match &self.file {
            None => {
                return Err(ScanError::NotOpen);
            },
            Some(v) => v.as_slice(),
        };
        match collect(&self.codec, f, file, col) {
            Err(e) => Err(e),
            Ok(addends) => {
                if addends.len() == 0 {
                    let zero: F64 = F64::from_bits(0);
                    return Ok(Some(ColumnStats { addends, min: zero, max: zero }));
                }
                let min: F64 = get_smallest(&addends);
                let max: F64 = get_largest(&addends);
                Ok(Some(ColumnStats { addends, min, max }))
            },
        }
    }
}

} // verus!
