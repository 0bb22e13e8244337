//! The rows that are extracted for a LIKE pattern are those that the scan for it finds.

use vstd::prelude::*;

use crate::bytes::{bit, bitmap_len, signed};
use crate::cells::CellSeq;
use crate::codec::ColumnCodec;
use crate::group::{group_of, id_at, id_section, stored_group, tail, window};
use crate::like::shape_of;
use crate::like_extract::{
    bufs_joined, first_entries, ids_or_zero, like_cell, like_cells, like_column, like_columns,
    like_group, like_rows, like_slot, like_source, like_upto, LikeSourceSeq, LikeSt,
};
use crate::like_scan::LikeQuerySeq;
use crate::model::{
    rows_before, rows_before_monotonic, ColumnType, ScanError, V4Footer,
    COL_ENCODING_COMPACT_DICTIONARY, COL_ENCODING_PLAIN,
};
use crate::numeric::min2;
use crate::range_laws::{lies_in, row_has_id};
use crate::row_batch::typed_column;
use crate::scan_laws::group_bounds;
use crate::select::{select, select_checked, select_checked_full};
use crate::set_laws::deletions;
use crate::storage::{max_rows, OnDemandStorage};
use crate::text::{dict_rows, plain_text, strict_rows, StrTestSeq};
use crate::text_filter::{checked, is_dictionary};
use crate::text_scan::{all_quick, quick_column, quick_group};

verus! {

/// Which rows of row group `i` match a pattern, and among how many they are looked for.
pub open spec fn like_hits<C: ColumnCodec>(
    c: C,
    f: V4Footer,
    file: Seq<u8>,
    q: LikeQuerySeq,
    i: int,
) -> (spec_fn(int) -> Option<bool>, int) {
    let meta = f.row_groups@[i];
    let rows = meta.row_count as int;
    let test = StrTestSeq::Like(q.shape);
    let none = (|r: int| Some(false), 0);
    match quick_column(f, file, q.col, i) {
        None => none,
        Some(quick) => {
            let del = deletions(meta, quick);
            if !q.dict {
                match plain_text(quick.data) {
                    Some(t) if quick.encoding == COL_ENCODING_PLAIN => (
                        strict_rows(t, test, del, Some(quick.nulls)),
                        min2(t.count, rows),
                    ),
                    _ => none,
                }
            } else if !is_dictionary(ColumnType::StringDict, quick.encoding) {
                none
            } else {
                match c.dictionary(quick.encoding == COL_ENCODING_COMPACT_DICTIONARY, quick.data) {
                    None => none,
                    Some(d) => {
                        let hit = dict_rows(d, test, del, None);
                        (|r: int| Some(hit(r)), min2(d.indices.len() as int, rows))
                    },
                }
            }
        },
    }
}

/// A test that cannot fail selects the same rows.
proof fn total_is_checked(
    hit: spec_fn(int) -> bool,
    test: spec_fn(int) -> Option<bool>,
    n: int,
    base: int,
    acc: Seq<usize>,
    max: int,
)
    requires
        forall|r: int| #[trigger] test(r) == Some(hit(r)),
    ensures
        select_checked(test, n, base, acc, max) == Some(select(hit, n, base, acc, max)),
    decreases n,
{
    if n > 0 {
        total_is_checked(hit, test, n - 1, base, acc, max);
        assert(test(n - 1) == Some(hit(n - 1)));
    }
}

/// A selection behind other rows is the same selection, counted from another row.
proof fn checked_moves(
    hit: spec_fn(int) -> Option<bool>,
    n: int,
    base: int,
    acc: Seq<usize>,
    max: int,
)
    requires
        0 <= base,
        n <= 0 || base + n <= usize::MAX,
        n <= 0 || acc.len() + n <= max,
        max <= usize::MAX,
    ensures
        match (
            select_checked(hit, n, 0, Seq::empty(), usize::MAX as int),
            select_checked(hit, n, base, acc, max),
        ) {
            (Some(here), Some(there)) => {
                &&& there.len() == acc.len() + here.len()
                &&& here.len() <= (if n > 0 {
                    n
                } else {
                    0
                })
                &&& forall|j: int| 0 <= j < acc.len() ==> #[trigger] there[j] == acc[j]
                &&& forall|j: int|
                    0 <= j < here.len() ==> #[trigger] here[j] < n && there[acc.len() + j] == base
                        + here[j]
            },
            (None, None) => true,
            _ => false,
        },
    decreases n,
{
    if n > 0 {
        checked_moves(hit, n - 1, base, acc, max);
        if let (Some(here), Some(there)) = (
            select_checked(hit, n, 0, Seq::empty(), usize::MAX as int),
            select_checked(hit, n, base, acc, max),
        ) {
            let before = select_checked(hit, n - 1, 0, Seq::empty(), usize::MAX as int)->0;
            assert forall|j: int| 0 <= j < here.len() implies #[trigger] here[j] < n
                && there[acc.len() + j] == base + here[j] by {
                if j < before.len() {
                    assert(before[j] == here[j]);
                }
            }
        }
    }
}

/// A selection up to a limit is the start of one without.
proof fn checked_limit(
    hit: spec_fn(int) -> Option<bool>,
    n: int,
    base: int,
    acc: Seq<usize>,
    max: int,
    m: int,
)
    requires
        0 <= m <= max,
        n <= 0 || acc.len() + n <= max,
        select_checked(hit, n, base, acc, max) is Some,
    ensures
        select_checked(hit, n, base, acc, max)->0.len() <= acc.len() + (if n > 0 {
            n
        } else {
            0
        }),
        select_checked(hit, n, base, first_entries(acc, m), m) == Some(
            first_entries(select_checked(hit, n, base, acc, max)->0, m),
        ),
    decreases n,
{
    if n > 0 {
        checked_limit(hit, n - 1, base, acc, max, m);
        let before = select_checked(hit, n - 1, base, acc, max)->0;
        let all = select_checked(hit, n, base, acc, max)->0;
        if all.len() > before.len() {
            if before.len() < m {
                assert(first_entries(before, m) =~= before);
                assert(first_entries(all, m) =~= all);
            } else {
                assert(first_entries(all, m) =~= first_entries(before, m));
            }
        }
    }
}

impl LikeQuerySeq {
    /// Scanning a row group in place selects the rows that match.
    proof fn quick_selects<C: ColumnCodec>(
        self,
        c: C,
        f: V4Footer,
        file: Seq<u8>,
        i: int,
        acc: Seq<usize>,
    )
        requires
            0 <= i < f.row_groups@.len(),
        ensures
            self.quick(c, f, file, i, acc) == checked(
                select_checked(
                    like_hits(c, f, file, self, i).0,
                    like_hits(c, f, file, self, i).1,
                    rows_before(f.row_groups@, i),
                    acc,
                    self.max,
                ),
            ),
            like_hits(c, f, file, self, i).1 <= f.row_groups@[i].row_count,
    {
        self.rows_select(c, f, file, i, rows_before(f.row_groups@, i), acc);
    }

    proof fn rows_select<C: ColumnCodec>(
        self,
        c: C,
        f: V4Footer,
        file: Seq<u8>,
        i: int,
        base: int,
        acc: Seq<usize>,
    )
        requires
            0 <= i < f.row_groups@.len(),
        ensures
            quick_column(f, file, self.col, i) matches Some(quick) ==> self.rows(
                c,
                quick.encoding,
                quick.data,
                false,
                deletions(f.row_groups@[i], quick),
                quick.nulls,
                f.row_groups@[i].row_count as int,
                base,
                acc,
            ) == checked(
                select_checked(
                    like_hits(c, f, file, self, i).0,
                    like_hits(c, f, file, self, i).1,
                    base,
                    acc,
                    self.max,
                ),
            ),
    {
        let meta = f.row_groups@[i];
        if let Some(quick) = quick_column(f, file, self.col, i) {
            if self.dict {
                if let Some(d) = c.dictionary(
                    quick.encoding == COL_ENCODING_COMPACT_DICTIONARY,
                    quick.data,
                ) {
                    let hit = dict_rows(
                        d,
                        StrTestSeq::Like(self.shape),
                        deletions(meta, quick),
                        None,
                    );
                    total_is_checked(
                        hit,
                        |r: int| Some(hit(r)),
                        min2(d.indices.len() as int, meta.row_count as int),
                        base,
                        acc,
                        self.max,
                    );
                }
            }
        }
    }

    /// Scanning a row group in turn selects the same rows, where the deletion bitmap is there.
    proof fn group_selects<C: ColumnCodec>(
        self,
        c: C,
        f: V4Footer,
        file: Seq<u8>,
        i: int,
        acc: Seq<usize>,
    )
        requires
            0 <= i < f.row_groups@.len(),
            quick_group(f, file, self.col, i),
            stored_group(f.row_groups@[i], file) is Ok,
            quick_column(f, file, self.col, i) matches Some(quick) ==> quick.deleted is Some,
        ensures
            self.group(c, f, file, i, acc) == self.quick(c, f, file, i, acc),
    {
        let meta = f.row_groups@[i];
        let s = stored_group(meta, file)->Ok_0;
        assert(s[28] == file[meta.offset + 28]);
        assert(s[29] == file[meta.offset + 29]);
        let g = group_of(c, meta, file)->Ok_0;
        assert(g.body == tail(s, 32));
        self.quick_selects(c, f, file, i, acc);
        if acc.len() >= self.max {
            let (hit, n) = like_hits(c, f, file, self, i);
            if n > 0 {
                select_checked_full(hit, 0, n, rows_before(f.row_groups@, i), acc, self.max);
            }
        }
    }
}

/// Whether the identifiers of row group `i` are there, and it is not given up for a column that
/// cannot be read.
pub open spec fn readable<C: ColumnCodec>(
    c: C,
    f: V4Footer,
    file: Seq<u8>,
    q: LikeQuerySeq,
    i: int,
) -> bool {
    let meta = f.row_groups@[i];
    &&& quick_group(f, file, q.col, i)
    &&& stored_group(meta, file) matches Ok(s) && {
        let body = tail(s, 32);
        &&& forall|r: int|
            0 <= r < meta.row_count ==> #[trigger] id_at(body, meta.min_id, s[30], r) is Some
        &&& quick_column(f, file, q.col, i) matches Some(quick) ==> {
            &&& quick.deleted is Some
            &&& like_rows(c, f, q, quick, i) matches Ok(rows) ==> like_columns(
                c,
                f,
                body,
                i,
                rows,
                f.schema.columns@.len() as int,
            ) != Ok::<Option<Seq<Seq<Option<CellSeq>>>>, ScanError>(None)
        }
    }
}

/// Whether a row of the store has an identifier, as a signed number.
pub open spec fn row_has_signed<C: ColumnCodec>(
    c: C,
    f: V4Footer,
    file: Seq<u8>,
    row: usize,
    id: i64,
) -> bool {
    exists|u: u64| #[trigger] row_has_id(c, f, file, row, u) && id == signed(u as int)
}

/// The row group that holds a row.
pub open spec fn group_with(f: V4Footer, row: int) -> int {
    choose|i: int| lies_in(f, i, row)
}

/// A row lies in one row group.
pub(crate) proof fn one_group(f: V4Footer, i: int, row: int)
    requires
        lies_in(f, i, row),
    ensures
        group_with(f, row) == i,
{
    let j = group_with(f, row);
    assert(lies_in(f, j, row));
    if i < j {
        rows_before_monotonic(f.row_groups@, i + 1, j);
    } else if j < i {
        rows_before_monotonic(f.row_groups@, j + 1, i);
    }
}

/// The cell of row `r` of row group `i` in column `j`, which stands at its place on record in the
/// body: nothing where the column is not there, the row is missing or it has no value.
pub open spec fn cell_in_group<C: ColumnCodec>(
    c: C,
    f: V4Footer,
    body: Seq<u8>,
    i: int,
    j: int,
    r: int,
) -> Option<CellSeq> {
    let bm = bitmap_len(f.row_groups@[i].row_count as int);
    let at = f.col_offsets@[i]@[j] as int;
    let column = tail(body, at + bm);
    match (window(body, at, bm), like_source(c, f.schema.kind(j), column)) {
        (Some(nulls), Some(src)) if column.len() > 0 && !bit(nulls, r) => match like_cell(src, r) {
            Ok(cell) => cell,
            Err(_) => None,
        },
        _ => None,
    }
}

/// The cell of a row of the store in column `j`.
pub open spec fn cell_of_row<C: ColumnCodec>(
    c: C,
    f: V4Footer,
    file: Seq<u8>,
    j: int,
    row: int,
) -> Option<CellSeq> {
    let i = group_with(f, row);
    cell_in_group(
        c,
        f,
        tail(stored_group(f.row_groups@[i], file)->Ok_0, 32),
        i,
        j,
        row - rows_before(f.row_groups@, i),
    )
}

/// The cells of rows of the store in column `j`.
pub open spec fn cells_of_rows<C: ColumnCodec>(
    c: C,
    f: V4Footer,
    file: Seq<u8>,
    j: int,
    rows: Seq<usize>,
) -> Seq<Option<CellSeq>> {
    Seq::new(rows.len(), |k: int| cell_of_row(c, f, file, j, rows[k] as int))
}

/// Whether what was collected are rows: one identifier and the cell of each column for each.
#[verifier::opaque]
pub open spec fn collected<C: ColumnCodec>(
    c: C,
    f: V4Footer,
    file: Seq<u8>,
    rows: Seq<usize>,
    st: LikeSt,
) -> bool {
    &&& st.ids.len() == rows.len()
    &&& st.bufs.len() == f.schema.columns@.len()
    &&& forall|j: int|
        0 <= j < st.bufs.len() ==> #[trigger] st.bufs[j] == cells_of_rows(c, f, file, j, rows)
    &&& forall|k: int| 0 <= k < rows.len() ==> row_has_signed(c, f, file, #[trigger] rows[k], st.ids[k])
}

proof fn each_like_cell(src: LikeSourceSeq, nulls: Seq<u8>, rows: Seq<usize>)
    ensures
        like_cells(src, nulls, rows) matches Ok(v) ==> v.len() == rows.len() && forall|k: int|
            0 <= k < rows.len() ==> #[trigger] v[k] == (if bit(nulls, rows[k] as int) {
                None
            } else {
                like_cell(src, rows[k] as int)->Ok_0
            }) && (bit(nulls, rows[k] as int) || like_cell(src, rows[k] as int) is Ok),
    decreases rows.len(),
{
    if rows.len() > 0 {
        let d = rows.drop_last();
        each_like_cell(src, nulls, d);
        if let Ok(v) = like_cells(src, nulls, rows) {
            let before = like_cells(src, nulls, d)->Ok_0;
            assert forall|k: int| 0 <= k < rows.len() implies #[trigger] v[k] == (if bit(
                nulls,
                rows[k] as int,
            ) {
                None
            } else {
                like_cell(src, rows[k] as int)->Ok_0
            }) && (bit(nulls, rows[k] as int) || like_cell(src, rows[k] as int) is Ok) by {
                if k < d.len() {
                    assert(v[k] == before[k]);
                    assert(d[k] == rows[k]);
                }
            }
        }
    }
}

/// The values that are read from the columns of a row group are the cells of its rows.
#[verifier::spinoff_prover]
proof fn each_like_column<C: ColumnCodec>(
    c: C,
    f: V4Footer,
    body: Seq<u8>,
    i: int,
    rows: Seq<usize>,
    k: int,
)
    requires
        0 <= k,
    ensures
        like_columns(c, f, body, i, rows, k) matches Ok(Some(v)) ==> v.len() == k && forall|j: int|
            0 <= j < k ==> #[trigger] v[j] == Seq::new(
                rows.len(),
                |m: int| cell_in_group(c, f, body, i, j, rows[m] as int),
            ),
    decreases k,
{
    if k > 0 {
        each_like_column(c, f, body, i, rows, k - 1);
        let bm = bitmap_len(f.row_groups@[i].row_count as int);
        let at = f.col_offsets@[i]@[k - 1] as int;
        let kind = f.schema.kind(k - 1);
        let column = tail(body, at + bm);
        if let Some(nulls) = window(body, at, bm) {
            if let Some(src) = like_source(c, kind, column) {
                each_like_cell(src, nulls, rows);
            }
        }
        if let Ok(Some(v)) = like_columns(c, f, body, i, rows, k) {
            let before = like_columns(c, f, body, i, rows, k - 1)->Ok_0->0;
            let last = like_column(c, kind, body, bm, at, rows)->Ok_0->0;
            assert(v == before.push(last));
            let cells = Seq::new(
                rows.len(),
                |m: int| cell_in_group(c, f, body, i, k - 1, rows[m] as int),
            );
            assert(last.len() == rows.len());
            assert forall|m: int| 0 <= m < rows.len() implies #[trigger] last[m] == cells[m] by {
                if window(body, at, bm) is Some && column.len() > 0 {
                    let nulls = window(body, at, bm)->0;
                    let src = like_source(c, kind, column)->0;
                    assert(like_cells(src, nulls, rows) == Ok::<Seq<Option<CellSeq>>, ScanError>(
                        last,
                    ));
                }
            }
            assert(last =~= cells);
            assert forall|j: int| 0 <= j < k implies #[trigger] v[j] == Seq::new(
                rows.len(),
                |m: int| cell_in_group(c, f, body, i, j, rows[m] as int),
            ) by {
                if j < k - 1 {
                    assert(v[j] == before[j]);
                }
            }
        }
    }
}

/// What is collected up to a row group are the rows of the scan up to it.
#[verifier::spinoff_prover]
proof fn collected_upto<C: ColumnCodec>(c: C, f: V4Footer, file: Seq<u8>, q: LikeQuerySeq, k: int)
    requires
        f.wf(),
        q.max == usize::MAX,
        0 <= k <= f.row_groups@.len(),
        forall|i: int| 0 <= i < k ==> #[trigger] readable(c, f, file, q, i),
        like_upto(c, f, file, q, k) is Ok,
    ensures
        q.scan(c, f, file, true, k) matches Ok(rows) && rows.len() <= rows_before(f.row_groups@, k)
            && collected(c, f, file, rows, like_upto(c, f, file, q, k)->Ok_0),
    decreases k,
{
    if k > 0 {
        let i = k - 1;
        collected_upto(c, f, file, q, i);
        group_bounds(f, i);
        assert(readable(c, f, file, q, i));
        let st = like_upto(c, f, file, q, i)->Ok_0;
        let acc = q.scan(c, f, file, true, i)->Ok_0;
        let meta = f.row_groups@[i];
        let base = rows_before(f.row_groups@, i);
        q.quick_selects(c, f, file, i, acc);
        let (hit, n) = like_hits(c, f, file, q, i);
        if let Some(quick) = quick_column(f, file, q.col, i) {
            q.rows_select(c, f, file, i, 0, Seq::empty());
            checked_moves(hit, n, base, acc, q.max);
            let here = like_rows(c, f, q, quick, i)->Ok_0;
            let v = q.scan(c, f, file, true, k)->Ok_0;
            if here.len() > 0 {
                collected_in_group(c, f, file, q, i, st, acc, v, here);
            } else {
                assert(v =~= acc);
            }
        }
    } else {
        collected_none(c, f, file, like_upto(c, f, file, q, k)->Ok_0);
    }
}

proof fn collected_none<C: ColumnCodec>(c: C, f: V4Footer, file: Seq<u8>, st: LikeSt)
    requires
        st.ids.len() == 0,
        st.bufs.len() == f.schema.columns@.len(),
        forall|j: int| 0 <= j < st.bufs.len() ==> (#[trigger] st.bufs[j]).len() == 0,
    ensures
        collected(c, f, file, Seq::empty(), st),
{
    reveal(collected);
    assert forall|j: int| 0 <= j < st.bufs.len() implies #[trigger] st.bufs[j] == cells_of_rows(
        c,
        f,
        file,
        j,
        Seq::empty(),
    ) by {
        assert(st.bufs[j] =~= cells_of_rows(c, f, file, j, Seq::empty()));
    }
}

#[verifier::spinoff_prover]
#[verifier::rlimit(60)]
proof fn collected_in_group<C: ColumnCodec>(
    c: C,
    f: V4Footer,
    file: Seq<u8>,
    q: LikeQuerySeq,
    i: int,
    st: LikeSt,
    acc: Seq<usize>,
    v: Seq<usize>,
    here: Seq<usize>,
)
    requires
        f.wf(),
        0 <= i < f.row_groups@.len(),
        readable(c, f, file, q, i),
        quick_column(f, file, q.col, i) is Some,
        like_rows(c, f, q, quick_column(f, file, q.col, i)->0, i) == Ok::<Seq<usize>, ScanError>(
            here,
        ),
        here.len() > 0,
        collected(c, f, file, acc, st),
        v.len() == acc.len() + here.len(),
        forall|j: int| 0 <= j < acc.len() ==> #[trigger] v[j] == acc[j],
        forall|j: int|
            0 <= j < here.len() ==> #[trigger] here[j] < f.row_groups@[i].row_count && v[acc.len()
                + j] == rows_before(f.row_groups@, i) + here[j],
        like_group(c, f, file, q, i, st) is Ok,
    ensures
        collected(c, f, file, v, like_group(c, f, file, q, i, st)->Ok_0),
{
    let meta = f.row_groups@[i];
    let s = stored_group(meta, file)->Ok_0;
    let body = tail(s, 32);
    let ids = if id_section(meta.row_count as int, s[30]) == 0 {
        crate::model::RG_IDS_IMPLICIT_CONTIGUOUS
    } else {
        crate::model::RG_IDS_PLAIN
    };
    let n = f.schema.columns@.len() as int;
    reveal(collected);
    group_bounds(f, i);
    assert(here[0] < meta.row_count);
    assert(s[28] == file[meta.offset + 28]);
    let g = group_of(c, meta, file)->Ok_0;
    assert(g.body == body && g.ids == s[30]);
    each_like_column(c, f, body, i, here, n);
    let cols = like_columns(c, f, body, i, here, n)->Ok_0->0;
    let more = ids_or_zero(body, meta.min_id, ids, here);
    let out = like_group(c, f, file, q, i, st)->Ok_0;
    assert(out.ids == st.ids + more);
    assert(out.bufs == bufs_joined(st.bufs, cols));
    assert forall|j: int| 0 <= j < n implies #[trigger] out.bufs[j] == cells_of_rows(
        c,
        f,
        file,
        j,
        v,
    ) by {
        let want = cells_of_rows(c, f, file, j, v);
        assert(st.bufs[j] == cells_of_rows(c, f, file, j, acc));
        assert forall|k: int| 0 <= k < v.len() implies #[trigger] (st.bufs[j] + cols[j])[k]
            == want[k] by {
            if k < acc.len() {
                assert(v[k] == acc[k]);
            } else {
                let m = k - acc.len();
                assert(here[m] < meta.row_count);
                assert(v[acc.len() + m] == rows_before(f.row_groups@, i) + here[m]);
                assert(lies_in(f, i, v[k] as int));
                one_group(f, i, v[k] as int);
            }
        }
        assert(st.bufs[j] + cols[j] =~= want);
    }
    assert forall|k: int| 0 <= k < v.len() implies row_has_signed(
        c,
        f,
        file,
        #[trigger] v[k],
        out.ids[k],
    ) by {
        if k < acc.len() {
            assert(v[k] == acc[k]);
            assert(row_has_signed(c, f, file, acc[k], st.ids[k]));
        } else {
            let m = k - acc.len();
            let r = here[m] as int;
            assert(r < meta.row_count);
            assert(v[acc.len() + m] == rows_before(f.row_groups@, i) + r);
            assert(lies_in(f, i, v[k] as int));
            assert(id_at(body, meta.min_id, s[30], r) is Some);
            let u = id_at(body, meta.min_id, s[30], r)->0 as u64;
            assert(id_at(body, meta.min_id, ids, r) == id_at(body, meta.min_id, s[30], r));
            assert(row_has_id(c, f, file, v[k], u));
        }
    }
}

/// A scan with a limit gives the start of the scan in place without one.
proof fn limited_scan<C: ColumnCodec>(
    c: C,
    f: V4Footer,
    file: Seq<u8>,
    q: LikeQuerySeq,
    m: int,
    quick: bool,
    k: int,
)
    requires
        f.wf(),
        q.max == usize::MAX,
        0 <= m <= q.max,
        0 <= k <= f.row_groups@.len(),
        forall|i: int| 0 <= i < k ==> #[trigger] readable(c, f, file, q, i),
        q.scan(c, f, file, true, k) is Ok,
    ensures
        q.scan(c, f, file, true, k)->Ok_0.len() <= rows_before(f.row_groups@, k),
        (LikeQuerySeq { max: m, ..q }).scan(c, f, file, quick, k) == Ok::<Seq<usize>, ScanError>(
            first_entries(q.scan(c, f, file, true, k)->Ok_0, m),
        ),
    decreases k,
{
    let short = LikeQuerySeq { max: m, ..q };
    if k > 0 {
        let i = k - 1;
        limited_scan(c, f, file, q, m, quick, i);
        group_bounds(f, i);
        assert(readable(c, f, file, q, i));
        let acc = q.scan(c, f, file, true, i)->Ok_0;
        let part = first_entries(acc, m);
        q.quick_selects(c, f, file, i, acc);
        short.quick_selects(c, f, file, i, part);
        if !quick {
            short.group_selects(c, f, file, i, part);
        }
        let (hit, n) = like_hits(c, f, file, q, i);
        assert(like_hits(c, f, file, short, i) == (hit, n));
        checked_limit(hit, n, rows_before(f.row_groups@, i), acc, q.max, m);
    } else {
        assert(first_entries(Seq::<usize>::empty(), m) =~= Seq::empty());
    }
}

impl<C: ColumnCodec> OnDemandStorage<C> {
    /// The scan for a pattern that goes through all of its row groups.
    pub open spec fn like_query(self, col_name: Seq<char>, pattern: Seq<char>) -> LikeQuerySeq {
        let f = self.footer->0;
        let col = f.schema.index_of(col_name)->0 as int;
        LikeQuerySeq {
            col,
            dict: f.schema.kind(col) is StringDict,
            shape: shape_of(pattern)->0,
            max: usize::MAX as int,
        }
    }

    /// The rows that are extracted for a pattern, up to a limit, are those that the scan for the
    /// pattern finds with that limit, in the same order: entry `k` of the identifiers is that of row
    /// `k`, and entry `k` of each column of the table is the cell of row `k` in it. No row group is
    /// given up for a column that cannot be read, and each has its deletion bitmap and its identifiers.
    pub proof fn law_extracted_like_rows(
        self,
        col_name: Seq<char>,
        pattern: Seq<char>,
        limit: Option<usize>,
    )
        requires
            self.wf(),
            self.like_extract(col_name, pattern, limit) matches Ok(Some(_)),
            forall|i: int|
                0 <= i < self.footer->0.row_groups@.len() ==> #[trigger] readable(
                    self.codec,
                    self.footer->0,
                    self.file->0@,
                    self.like_query(col_name, pattern),
                    i,
                ),
        ensures
            self.like_filter(col_name, pattern, limit) matches Ok(Some(rows)) && ({
                let b = self.like_extract(col_name, pattern, limit)->Ok_0->0;
                &&& b.ids.len() == rows.len()
                &&& forall|k: int|
                    0 <= k < rows.len() ==> row_has_signed(
                        self.codec,
                        self.footer->0,
                        self.file->0@,
                        #[trigger] rows[k],
                        b.ids[k],
                    )
                &&& b.columns.len() == self.footer->0.schema.columns@.len()
                &&& forall|j: int|
                    0 <= j < b.columns.len() ==> #[trigger] b.columns[j] == (
                        self.footer->0.schema.columns@[j].0@,
                        typed_column(
                            like_slot(self.footer->0.schema.kind(j)),
                            cells_of_rows(self.codec, self.footer->0, self.file->0@, j, rows),
                        ),
                    )
            }),
    {
        let f = self.footer->0;
        let file = self.file->0@;
        let q = self.like_query(col_name, pattern);
        let n = f.row_groups@.len() as int;
        let m = max_rows(limit);
        let quick = limit is None && n > 1 && all_quick(f, file, q.col);
        collected_upto(self.codec, f, file, q, n);
        limited_scan(self.codec, f, file, q, m, quick, n);
        let all = q.scan(self.codec, f, file, true, n)->Ok_0;
        let st = like_upto(self.codec, f, file, q, n)->Ok_0;
        let rows = first_entries(all, m);
        reveal(collected);
        assert forall|k: int| 0 <= k < rows.len() implies row_has_signed(
            self.codec,
            f,
            file,
            #[trigger] rows[k],
            first_entries(st.ids, m)[k],
        ) by {
            assert(rows[k] == all[k]);
        }
        assert forall|j: int| 0 <= j < f.schema.columns@.len() implies #[trigger] first_entries(
            st.bufs[j],
            m,
        ) == cells_of_rows(self.codec, f, file, j, rows) by {
            assert(st.bufs[j] == cells_of_rows(self.codec, f, file, j, all));
            assert(first_entries(st.bufs[j], m) =~= cells_of_rows(self.codec, f, file, j, rows));
        }
    }
}

} // verus!
