//! What holds of every scan: its rows come in order, and a limit cuts it short.

use vstd::prelude::*;

use crate::bools::{bit_rows, bit_scan};
use crate::bytes::bitmap_len;
use crate::codec::ColumnCodec;
use crate::column::ColumnSeq;
use crate::double::{at_least, at_most, law_ceil, law_floor, le, F64};
use crate::group::{group_of, id_section, stored_group, tail, walk, window, GroupSeq};
use crate::like_scan::LikeQuerySeq;
use crate::model::{
    rows_before, rows_before_monotonic, ColumnType, OnDemandSchema, ScanError, V4Footer, ZoneMap,
    COL_ENCODING_BITPACK, COL_ENCODING_COMPACT_DICTIONARY, COL_ENCODING_PLAIN, RG_COMPRESS_NONE,
};
use crate::numeric::{
    encoding_of, fast_group, min2, num_rows, packed_numbers, tag_len, NumSeq, QuerySeq,
};
use crate::select::{select, select_adds, select_checked, select_checked_adds};
use crate::text::{dict_rows, plain_text, strict_rows, text_rows, StrTestSeq};
use crate::text_scan::{quick_column, QuickSeq};
use crate::text_sets::{lengths_miss, SetQuerySeq};

verus! {

/// Whether rows come in strictly ascending order and lie below `n`.
pub open spec fn rows_in_order(v: Seq<usize>, n: int) -> bool {
    &&& forall|k: int| 0 <= k < v.len() ==> #[trigger] v[k] < n
    &&& forall|j: int, k: int| 0 <= j < k < v.len() ==> #[trigger] v[j] < #[trigger] v[k]
}

/// Whether `v` is `acc` followed by rows of `base..base + n` in strictly ascending order.
pub open spec fn extends(acc: Seq<usize>, v: Seq<usize>, base: int, n: int) -> bool {
    &&& acc.len() <= v.len()
    &&& v.take(acc.len() as int) == acc
    &&& forall|k: int| acc.len() <= k < v.len() ==> base <= #[trigger] v[k] < base + n
    &&& forall|j: int, k: int| acc.len() <= j < k < v.len() ==> #[trigger] v[j] < #[trigger] v[k]
}

pub(crate) proof fn extends_itself(acc: Seq<usize>, base: int, n: int)
    ensures
        extends(acc, acc, base, n),
{
    assert(acc.take(acc.len() as int) =~= acc);
}

/// Rows of a next row group keep the order.
pub(crate) proof fn extends_in_order(acc: Seq<usize>, v: Seq<usize>, base: int, n: int)
    requires
        rows_in_order(acc, base),
        extends(acc, v, base, n),
        0 <= n,
    ensures
        rows_in_order(v, base + n),
{
    let m = acc.len() as int;
    assert forall|k: int| 0 <= k < v.len() implies #[trigger] v[k] < base + n by {
        if k < m {
            assert(v.take(m)[k] == acc[k]);
        }
    }
    assert forall|j: int, k: int| 0 <= j < k < v.len() implies #[trigger] v[j]
        < #[trigger] v[k] by {
        if j < m {
            assert(v.take(m)[j] == acc[j]);
            if k < m {
                assert(v.take(m)[k] == acc[k]);
            }
        }
    }
}

pub(crate) proof fn select_extends(
    hit: spec_fn(int) -> bool,
    n: int,
    rows: int,
    base: int,
    acc: Seq<usize>,
    max: int,
)
    requires
        n <= rows,
        0 <= base,
        base + rows <= usize::MAX,
        0 <= rows,
    ensures
        extends(acc, select(hit, n, base, acc, max), base, rows),
{
    if n <= 0 {
        extends_itself(acc, base, rows);
    } else {
        select_adds(hit, n, base, acc, max);
    }
}

pub(crate) proof fn select_checked_extends(
    hit: spec_fn(int) -> Option<bool>,
    n: int,
    rows: int,
    base: int,
    acc: Seq<usize>,
    max: int,
)
    requires
        n <= rows,
        0 <= base,
        base + rows <= usize::MAX,
        0 <= rows,
    ensures
        select_checked(hit, n, base, acc, max) matches Some(v) ==> extends(acc, v, base, rows),
{
    if n <= 0 {
        extends_itself(acc, base, rows);
    } else {
        select_checked_adds(hit, n, base, acc, max);
    }
}

/// Where the rows of a row group lie.
pub(crate) proof fn group_bounds(f: V4Footer, k: int)
    requires
        f.wf(),
        0 <= k < f.row_groups@.len(),
    ensures
        0 <= rows_before(f.row_groups@, k),
        rows_before(f.row_groups@, k) + f.row_groups@[k].row_count == rows_before(
            f.row_groups@,
            k + 1,
        ),
        rows_before(f.row_groups@, k + 1) <= usize::MAX,
{
    rows_before_monotonic(f.row_groups@, 0, k);
    rows_before_monotonic(f.row_groups@, k + 1, f.row_groups@.len() as int);
}

impl QuerySeq {
    /// The rows of a row group whose numbers pass, whatever was found before: which rows, and among
    /// how many. `None` where none are looked at.
    pub open spec fn hits<C: ColumnCodec>(self, c: C, f: V4Footer, file: Seq<u8>, i: int) -> Result<
        Option<(spec_fn(int) -> bool, int)>,
        ScanError,
    > {
        let meta = f.row_groups@[i];
        let rows = meta.row_count as int;
        let bm = crate::bytes::bitmap_len(rows);
        if rows == 0 || self.test.misses(f.zone(i, self.col, false)) {
            Ok(None)
        } else {
            match group_of(c, meta, file) {
                Err(e) => Err(e),
                Ok(g) => match window(g.body, id_section(rows, g.ids), bm) {
                    None => Err(ScanError::DeletionsTruncated),
                    Some(d) => {
                        let del = if meta.deletion_count > 0 {
                            Some(d)
                        } else {
                            None
                        };
                        match f.rcix(i, self.col) {
                            Some(o) if g.flag == RG_COMPRESS_NONE => match window(g.body, o, bm) {
                                None => Ok(None),
                                Some(nulls) => match self.direct(
                                    g.version,
                                    rows,
                                    tail(g.body, o + bm),
                                ) {
                                    Some((src, n)) => Ok(
                                        Some((num_rows(src, self.test, del, Some(nulls)), n)),
                                    ),
                                    None => self.walked_hits(c, f.schema, g, rows, del),
                                },
                            },
                            _ => self.walked_hits(c, f.schema, g, rows, del),
                        }
                    },
                },
            }
        }
    }

    /// The rows of a row group whose columns are walked over.
    pub open spec fn walked_hits<C: ColumnCodec>(
        self,
        c: C,
        schema: OnDemandSchema,
        g: GroupSeq,
        rows: int,
        del: Option<Seq<u8>>,
    ) -> Result<Option<(spec_fn(int) -> bool, int)>, ScanError> {
        let bm = crate::bytes::bitmap_len(rows);
        let tagged = g.version >= 1;
        match walk(c, schema, tagged, g.body, bm, 0, id_section(rows, g.ids) + bm, self.col) {
            Err(e) => Err(e),
            Ok(None) => Ok(None),
            Ok(Some(p)) => match self.decode_hits(
                c,
                schema.kind(self.col),
                g.version,
                rows,
                del,
                g.body.subrange(p, p + bm),
                tail(g.body, p + bm),
            ) {
                Err(e) => Err(e),
                Ok(a) => match walk(
                    c,
                    schema,
                    tagged,
                    g.body,
                    bm,
                    self.col,
                    p,
                    schema.columns@.len() as int,
                ) {
                    Err(e) => Err(e),
                    Ok(_) => Ok(a),
                },
            },
        }
    }

    /// The rows of a column that is not read in place.
    pub open spec fn decode_hits<C: ColumnCodec>(
        self,
        c: C,
        kind: ColumnType,
        version: u8,
        rows: int,
        del: Option<Seq<u8>>,
        nulls: Seq<u8>,
        col: Seq<u8>,
    ) -> Result<Option<(spec_fn(int) -> bool, int)>, ScanError> {
        let payload = tail(col, tag_len(version));
        if version >= 1 && col.len() == 0 {
            Err(ScanError::Corrupt)
        } else if encoding_of(version, col) == COL_ENCODING_PLAIN && payload.len() >= 8 {
            let (src, n) = self.plain(rows, payload);
            Ok(Some((num_rows(src, self.test, del, Some(nulls)), n)))
        } else {
            match c.decoded(version >= 1, col, kind) {
                None => Err(ScanError::Codec),
                Some((ColumnSeq::Int64(v), _)) => Ok(
                    Some(
                        (
                            num_rows(NumSeq::Ints(v), self.test, del, Some(nulls)),
                            min2(v.len() as int, rows),
                        ),
                    ),
                ),
                Some((ColumnSeq::Float64(v), _)) => Ok(
                    Some(
                        (
                            num_rows(NumSeq::Reals(v), self.test, del, Some(nulls)),
                            min2(v.len() as int, rows),
                        ),
                    ),
                ),
                Some((ColumnSeq::Bool { data, len }, _)) if self.bits => Ok(
                    Some(
                        (
                            num_rows(NumSeq::Bits(data), self.test, del, Some(nulls)),
                            min2(min2(len as int, rows), 8 * data.len() as int),
                        ),
                    ),
                ),
                Some(_) => Ok(None),
            }
        }
    }

    /// A row group adds the rows that pass, as far as the limit goes.
    pub proof fn law_group_selects<C: ColumnCodec>(
        self,
        c: C,
        f: V4Footer,
        file: Seq<u8>,
        i: int,
        acc: Seq<usize>,
    )
        ensures
            self.group(c, f, file, i, acc) == (if acc.len() >= self.max {
                Ok::<Seq<usize>, ScanError>(acc)
            } else {
                match self.hits(c, f, file, i) {
                    Err(e) => Err(e),
                    Ok(None) => Ok(acc),
                    Ok(Some((hit, n))) => Ok(
                        select(hit, n, rows_before(f.row_groups@, i), acc, self.max),
                    ),
                }
            }),
    {
    }

    /// No more rows are looked at than the row group has.
    proof fn hits_bound<C: ColumnCodec>(self, c: C, f: V4Footer, file: Seq<u8>, i: int)
        ensures
            self.hits(c, f, file, i) matches Ok(Some((hit, n))) ==> n
                <= f.row_groups@[i].row_count,
    {
    }

    /// The rows of a scan of numbers come in strictly ascending order and are rows of the store.
    pub proof fn law_rows_in_order<C: ColumnCodec>(self, c: C, f: V4Footer, file: Seq<u8>, k: int)
        requires
            f.wf(),
            0 <= k <= f.row_groups@.len(),
        ensures
            self.scan(c, f, file, k) matches Ok(v) ==> rows_in_order(
                v,
                rows_before(f.row_groups@, k),
            ),
        decreases k,
    {
        if k > 0 {
            self.law_rows_in_order(c, f, file, k - 1);
            if let Ok(acc) = self.scan(c, f, file, k - 1) {
                group_bounds(f, k - 1);
                self.law_group_selects(c, f, file, k - 1, acc);
                self.hits_bound(c, f, file, k - 1);
                let base = rows_before(f.row_groups@, k - 1);
                let rows = f.row_groups@[k - 1].row_count as int;
                extends_itself(acc, base, rows);
                if let Ok(Some((hit, n))) = self.hits(c, f, file, k - 1) {
                    select_extends(hit, n, rows, base, acc, self.max);
                }
                if let Ok(v) = self.scan(c, f, file, k) {
                    extends_in_order(acc, v, base, rows);
                }
            }
        }
    }

    /// A limit gives the first rows of the scan without it.
    pub proof fn law_limit_is_prefix<C: ColumnCodec>(
        self,
        c: C,
        f: V4Footer,
        file: Seq<u8>,
        m: int,
        k: int,
    )
        requires
            0 <= m <= self.max,
            self.scan(c, f, file, k) is Ok,
        ensures
            (QuerySeq { max: m, ..self }).scan(c, f, file, k) == Ok::<Seq<usize>, ScanError>(
                self.scan(c, f, file, k)->Ok_0.take(
                    min2(self.scan(c, f, file, k)->Ok_0.len() as int, m),
                ),
            ),
        decreases k,
    {
        let short = QuerySeq { max: m, ..self };
        if k > 0 {
            assert(self.scan(c, f, file, k - 1) is Ok);
            self.law_limit_is_prefix(c, f, file, m, k - 1);
            let acc = self.scan(c, f, file, k - 1)->Ok_0;
            let part = acc.take(min2(acc.len() as int, m));
            self.law_group_selects(c, f, file, k - 1, acc);
            short.law_group_selects(c, f, file, k - 1, part);
            short.same_hits(self, c, f, file, k - 1);
            let v = self.scan(c, f, file, k)->Ok_0;
            if acc.len() >= self.max {
                assert(v == acc);
                assert(part.len() >= m);
            } else {
                match self.hits(c, f, file, k - 1) {
                    Err(_) => {},
                    Ok(None) => {},
                    Ok(Some((hit, n))) => {
                        let base = rows_before(f.row_groups@, k - 1);
                        law_select_limit(hit, n, base, acc, self.max, m);
                        if part.len() >= m {
                            crate::select::select_full(hit, 0, n, base, part, m);
                        }
                    },
                }
            }
        } else {
            assert(Seq::<usize>::empty().take(0) =~= Seq::empty());
        }
    }

    /// The limit does not matter to what passes.
    proof fn same_hits<C: ColumnCodec>(self, other: Self, c: C, f: V4Footer, file: Seq<u8>, i: int)
        requires
            self == (QuerySeq { max: self.max, ..other }),
        ensures
            self.hits(c, f, file, i) == other.hits(c, f, file, i),
    {
    }
}

/// A selection up to a limit is the start of one up to a larger limit.
pub proof fn law_select_limit(
    hit: spec_fn(int) -> bool,
    n: int,
    base: int,
    acc: Seq<usize>,
    max: int,
    m: int,
)
    requires
        0 <= m <= max,
    ensures
        ({
            let all = select(hit, n, base, acc, max);
            select(hit, n, base, acc.take(min2(acc.len() as int, m)), m) == all.take(
                min2(all.len() as int, m),
            )
        }),
    decreases n,
{
    if n > 0 {
        law_select_limit(hit, n - 1, base, acc, max, m);
        let before = select(hit, n - 1, base, acc, max);
        let all = select(hit, n, base, acc, max);
        let part = before.take(min2(before.len() as int, m));
        if all.len() > before.len() {
            if before.len() < m {
                assert(part =~= before);
                assert(all.take(min2(all.len() as int, m)) =~= all);
            } else {
                assert(all.take(m) =~= before.take(m));
            }
        }
    }
}

/// A range scan takes the whole numbers that lie between its bounds, whatever fractions the bounds
/// have. The lower bound is not above all numbers of the store, nor the upper one below them.
pub proof fn law_range_of_ints(low: F64, high: F64, v: int)
    requires
        !crate::double::is_nan(low.bits),
        !crate::double::is_nan(high.bits),
        i64::MIN <= v <= i64::MAX,
        at_most(low, i64::MAX as int),
        at_least(high, i64::MIN as int),
    ensures
        crate::numeric::range_test(low, high).accepts_int(v) == (at_most(low, v) && at_least(high, v)),
{
    law_ceil(low, v);
    law_floor(high, v);
}

/// Numbers between the bounds of a zone map that rules out a range do not pass.
pub proof fn law_zone_misses_ints(low: F64, high: F64, z: ZoneMap, v: int)
    requires
        !z.is_float,
        z.min_bits <= v <= z.max_bits,
        crate::numeric::range_test(low, high).misses(Some(z)),
    ensures
        !crate::numeric::range_test(low, high).accepts_int(v),
{
}

impl LikeQuerySeq {
    proof fn rows_extend<C: ColumnCodec>(
        self,
        c: C,
        encoding: u8,
        data: Seq<u8>,
        lost: bool,
        del: Option<Seq<u8>>,
        nulls: Seq<u8>,
        rows: int,
        base: int,
        acc: Seq<usize>,
    )
        requires
            0 <= base,
            0 <= rows,
            base + rows <= usize::MAX,
        ensures
            self.rows(c, encoding, data, lost, del, nulls, rows, base, acc) matches Ok(v)
                ==> extends(acc, v, base, rows),
    {
        let test = StrTestSeq::Like(self.shape);
        extends_itself(acc, base, rows);
        if let Some(t) = plain_text(data) {
            select_checked_extends(
                strict_rows(t, test, del, Some(nulls)),
                min2(t.count, rows),
                rows,
                base,
                acc,
                self.max,
            );
        }
        if let Some(d) = c.dictionary(encoding == COL_ENCODING_COMPACT_DICTIONARY, data) {
            select_extends(
                dict_rows(d, test, del, None),
                min2(d.indices.len() as int, rows),
                rows,
                base,
                acc,
                self.max,
            );
        }
    }

    /// The rows of a scan for a pattern come in strictly ascending order and are rows of the store.
    pub proof fn law_rows_in_order<C: ColumnCodec>(
        self,
        c: C,
        f: V4Footer,
        file: Seq<u8>,
        quick: bool,
        k: int,
    )
        requires
            f.wf(),
            0 <= k <= f.row_groups@.len(),
        ensures
            self.scan(c, f, file, quick, k) matches Ok(v) ==> rows_in_order(
                v,
                rows_before(f.row_groups@, k),
            ),
        decreases k,
    {
        if k > 0 {
            self.law_rows_in_order(c, f, file, quick, k - 1);
            if let Ok(acc) = self.scan(c, f, file, quick, k - 1) {
                group_bounds(f, k - 1);
                let base = rows_before(f.row_groups@, k - 1);
                let meta = f.row_groups@[k - 1];
                let rows = meta.row_count as int;
                let bm = crate::bytes::bitmap_len(rows);
                extends_itself(acc, base, rows);
                if quick {
                    if let Some(q) = quick_column(f, file, self.col, k - 1) {
                        self.rows_extend(
                            c,
                            q.encoding,
                            q.data,
                            false,
                            if meta.deletion_count > 0 {
                                q.deleted
                            } else {
                                None
                            },
                            q.nulls,
                            rows,
                            base,
                            acc,
                        );
                    }
                } else if let Ok(g) = group_of(c, meta, file) {
                    let deleted = window(g.body, id_section(rows, g.ids), bm);
                    if let Some(o) = f.rcix(k - 1, self.col) {
                        if let Some(nulls) = window(g.body, o, bm) {
                            let col = tail(g.body, o + bm);
                            self.rows_extend(
                                c,
                                col[0],
                                tail(col, 1),
                                meta.deletion_count > 0 && deleted is None,
                                if meta.deletion_count > 0 {
                                    deleted
                                } else {
                                    None
                                },
                                nulls,
                                rows,
                                base,
                                acc,
                            );
                        }
                    }
                }
                if let Ok(v) = self.scan(c, f, file, quick, k) {
                    extends_in_order(acc, v, base, rows);
                }
            }
        }
    }
}

/// The rows of a scan for a truth value come in strictly ascending order and are rows of the store.
pub proof fn law_bits_in_order(f: V4Footer, file: Seq<u8>, col: int, target: bool, max: int, k: int)
    requires
        f.wf(),
        0 <= k <= f.row_groups@.len(),
    ensures
        rows_in_order(bit_scan(f, file, col, target, max, k), rows_before(f.row_groups@, k)),
    decreases k,
{
    if k > 0 {
        law_bits_in_order(f, file, col, target, max, k - 1);
        group_bounds(f, k - 1);
        let acc = bit_scan(f, file, col, target, max, k - 1);
        let base = rows_before(f.row_groups@, k - 1);
        let meta = f.row_groups@[k - 1];
        let rows = meta.row_count as int;
        extends_itself(acc, base, rows);
        if let Ok(s) = stored_group(meta, file) {
            if let Some(o) = f.rcix(k - 1, col) {
                let body = tail(s, 32);
                if let Some(values) = window(body, o, crate::bytes::bitmap_len(rows)) {
                    select_extends(
                        bit_rows(body, values, meta.deletion_count > 0, target),
                        rows,
                        rows,
                        base,
                        acc,
                        max,
                    );
                }
            }
        }
        extends_in_order(acc, bit_scan(f, file, col, target, max, k), base, rows);
    }
}

impl SetQuerySeq {
    /// The rows of a scan for a set of strings come in strictly ascending order and are rows of the
    /// store.
    pub proof fn law_rows_in_order<C: ColumnCodec>(
        self,
        c: C,
        f: V4Footer,
        file: Seq<u8>,
        low: int,
        high: int,
        k: int,
    )
        requires
            f.wf(),
            0 <= k <= f.row_groups@.len(),
        ensures
            rows_in_order(self.in_scan(c, f, file, low, high, k), rows_before(f.row_groups@, k)),
        decreases k,
    {
        if k > 0 {
            self.law_rows_in_order(c, f, file, low, high, k - 1);
            group_bounds(f, k - 1);
            let acc = self.in_scan(c, f, file, low, high, k - 1);
            let base = rows_before(f.row_groups@, k - 1);
            let meta = f.row_groups@[k - 1];
            let rows = meta.row_count as int;
            extends_itself(acc, base, rows);
            if let Some(q) = quick_column(f, file, self.col, k - 1) {
                let del = if meta.deletion_count > 0 {
                    q.deleted
                } else {
                    None
                };
                self.rows_extend(c, q, del, rows, base, acc);
            }
            extends_in_order(acc, self.in_scan(c, f, file, low, high, k), base, rows);
        }
    }

    proof fn rows_extend<C: ColumnCodec>(
        self,
        c: C,
        q: QuickSeq,
        del: Option<Seq<u8>>,
        rows: int,
        base: int,
        acc: Seq<usize>,
    )
        requires
            0 <= base,
            0 <= rows,
            base + rows <= usize::MAX,
        ensures
            extends(acc, self.rows(c, q, del, rows, base, acc), base, rows),
    {
        extends_itself(acc, base, rows);
        if let Some(t) = plain_text(q.data) {
            select_extends(
                text_rows(t, self.test, del, Some(q.nulls)),
                min2(t.count, rows),
                rows,
                base,
                acc,
                self.max,
            );
        }
        if let Some(d) = c.dictionary(
            q.encoding == COL_ENCODING_COMPACT_DICTIONARY,
            q.data,
        ) {
            select_extends(
                dict_rows(d, self.test, del, Some(q.nulls)),
                min2(d.indices.len() as int, rows),
                rows,
                base,
                acc,
                self.max,
            );
        }
    }

    /// Counting gives the number of rows that the scan gives, where no row group is left out for the
    /// lengths of its strings or for a deletion bitmap that is missing.
    pub proof fn law_count_is_length<C: ColumnCodec>(
        self,
        c: C,
        f: V4Footer,
        file: Seq<u8>,
        low: int,
        high: int,
        k: int,
    )
        requires
            f.wf(),
            0 <= k <= f.row_groups@.len(),
            self.max >= rows_before(f.row_groups@, k),
            forall|i: int|
                0 <= i < k ==> !#[trigger] lengths_miss(f.zone(i, self.col, true), low, high),
            forall|i: int|
                0 <= i < k && (#[trigger] f.row_groups@[i]).deletion_count > 0 ==> (quick_column(
                    f,
                    file,
                    self.col,
                    i,
                ) matches Some(q) ==> q.deleted is Some),
        ensures
            self.count(c, f, file, k) == self.in_scan(c, f, file, low, high, k).len(),
            self.count(c, f, file, k) <= rows_before(f.row_groups@, k),
        decreases k,
    {
        if k > 0 {
            group_bounds(f, k - 1);
            self.law_count_is_length(c, f, file, low, high, k - 1);
            let acc = self.in_scan(c, f, file, low, high, k - 1);
            let base = rows_before(f.row_groups@, k - 1);
            let meta = f.row_groups@[k - 1];
            let rows = meta.row_count as int;
            assert(!lengths_miss(f.zone(k - 1, self.col, true), low, high));
            if let Some(q) = quick_column(f, file, self.col, k - 1) {
                let del = if meta.deletion_count > 0 {
                    q.deleted
                } else {
                    None
                };
                self.rows_count(c, q, del, rows, base, acc);
                self.rows_extend(c, q, del, rows, 0, Seq::empty());
                self.rows_few(c, q, del, rows);
                if acc.len() >= self.max {
                    assert(acc.len() == base);
                    assert(rows == 0);
                }
            }
        }
    }

    /// There are no more rows than there are.
    proof fn rows_few<C: ColumnCodec>(self, c: C, q: QuickSeq, del: Option<Seq<u8>>, rows: int)
        requires
            0 <= rows <= usize::MAX,
        ensures
            self.rows(c, q, del, rows, 0, Seq::empty()).len() <= rows,
    {
        if let Some(t) = plain_text(q.data) {
            if min2(t.count, rows) >= 0 {
                select_adds(
                    text_rows(t, self.test, del, Some(q.nulls)),
                    min2(t.count, rows),
                    0,
                    Seq::empty(),
                    self.max,
                );
            }
        }
        if let Some(d) = c.dictionary(
            q.encoding == COL_ENCODING_COMPACT_DICTIONARY,
            q.data,
        ) {
            select_adds(
                dict_rows(d, self.test, del, Some(q.nulls)),
                min2(d.indices.len() as int, rows),
                0,
                Seq::empty(),
                self.max,
            );
        }
    }

    proof fn rows_count<C: ColumnCodec>(
        self,
        c: C,
        q: QuickSeq,
        del: Option<Seq<u8>>,
        rows: int,
        base: int,
        acc: Seq<usize>,
    )
        requires
            0 <= base,
            0 <= rows,
            acc.len() + rows <= self.max,
        ensures
            self.rows(c, q, del, rows, base, acc).len() == acc.len() + self.rows(
                c,
                q,
                del,
                rows,
                0,
                Seq::empty(),
            ).len(),
    {
        if let Some(t) = plain_text(q.data) {
            select_counts(
                text_rows(t, self.test, del, Some(q.nulls)),
                min2(t.count, rows),
                base,
                acc,
                self.max,
            );
        }
        if let Some(d) = c.dictionary(
            q.encoding == COL_ENCODING_COMPACT_DICTIONARY,
            q.data,
        ) {
            select_counts(
                dict_rows(d, self.test, del, Some(q.nulls)),
                min2(d.indices.len() as int, rows),
                base,
                acc,
                self.max,
            );
        }
    }
}

/// How many rows a selection adds does not depend on those before.
pub(crate) proof fn select_counts(hit: spec_fn(int) -> bool, n: int, base: int, acc: Seq<usize>, max: int)
    requires
        acc.len() + (if n > 0 {
            n
        } else {
            0
        }) <= max,
    ensures
        select(hit, n, base, acc, max).len() == acc.len() + select(
            hit,
            n,
            0,
            Seq::empty(),
            max,
        ).len(),
        select(hit, n, 0, Seq::empty(), max).len() <= (if n > 0 {
            n
        } else {
            0
        }),
    decreases n,
{
    if n > 0 {
        select_counts(hit, n - 1, base, acc, max);
    }
}

/// Reals between the bounds of a zone map that rules out a range do not pass.
pub proof fn law_zone_misses_reals(low: F64, high: F64, z: ZoneMap, v: F64)
    requires
        z.is_float,
        le(z.low(), v),
        le(v, z.high()),
        crate::numeric::range_test(low, high).misses(Some(z)),
    ensures
        !crate::numeric::range_test(low, high).accepts_real(v),
{
}

impl QuerySeq {
    /// Scanning a row group in place gives what scanning it in turn gives, where no zone map rules it
    /// out. The deletion bitmap is there, and the column is plain with at least one byte of numbers or
    /// packed with all of its fields.
    pub proof fn law_in_place_is_in_turn<C: ColumnCodec>(
        self,
        c: C,
        f: V4Footer,
        file: Seq<u8>,
        i: int,
        acc: Seq<usize>,
    )
        requires
            0 <= i < f.row_groups@.len(),
            f.row_groups@[i].row_count > 0,
            fast_group(f, file, self.col, self.ints, i),
            !self.bits,
            self.packed,
            acc.len() < self.max,
            !self.test.misses(f.zone(i, self.col, false)),
            ({
                let meta = f.row_groups@[i];
                let rows = meta.row_count as int;
                let s = file.subrange(meta.offset as int, meta.offset + meta.data_size);
                let body = tail(s, 32);
                let col = tail(body, f.rcix(i, self.col)->0 + bitmap_len(rows));
                &&& window(body, id_section(rows, s[30]), bitmap_len(rows)) is Some
                &&& col[0] == COL_ENCODING_PLAIN ==> col.len() > 9
                &&& col[0] == COL_ENCODING_BITPACK ==> packed_numbers(rows, tail(col, 1)) is Some
            }),
        ensures
            self.group(c, f, file, i, acc) == Ok::<Seq<usize>, ScanError>(
                self.fast(f, file, i, acc),
            ),
    {
    }
}

} // verus!
