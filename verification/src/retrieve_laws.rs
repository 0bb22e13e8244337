//! What holds of rows that are read as columns.

use vstd::prelude::*;

use crate::batch::span;
use crate::by_id::{
    columns_named, columns_wanted, home, home_starts_below, homes, known_group, known_upto, live_ids, live_row,
    outs_in,
};
use crate::bytes::{bitmap_len, signed};
use crate::cells::{cells_of, CellSeq, Slot, SourceSeq};
use crate::codec::ColumnCodec;
use crate::extract::placed;
use crate::group::{id_section, stored_group, tail};
use crate::id_laws::law_row_has_id;
use crate::model::{ColumnType, OnDemandSchema, RowGroupMeta, ScanError, V4Footer};
use crate::retrieve::{
    batch_cells, batch_group_columns, batch_slot, batch_start, kept, kept_columns, marked, some_ids,
    BatchColumnsSeq, BatchSt, FoundRowsSeq,
};
use crate::row_batch::{typed_column, BatchColumnSeq};
use crate::storage::OnDemandStorage;

verus! {

pub(crate) proof fn cells_alone(
    src: SourceSeq,
    slot: Slot,
    full: bool,
    nulls: Seq<u8>,
    rows: Seq<usize>,
    v: Seq<Option<CellSeq>>,
    t: int,
)
    requires
        cells_of(src, slot, full, nulls, rows) == Ok::<Seq<Option<CellSeq>>, ScanError>(v),
        0 <= t < rows.len(),
    ensures
        v.len() == rows.len(),
        cells_of(src, slot, full, nulls, seq![rows[t]]) == Ok::<Seq<Option<CellSeq>>, ScanError>(
            seq![v[t]],
        ),
    decreases rows.len(),
{
    let before = cells_of(src, slot, full, nulls, rows.drop_last())->Ok_0;
    if rows.len() > 1 {
        cells_alone(
            src,
            slot,
            full,
            nulls,
            rows.drop_last(),
            before,
            if t < rows.len() - 1 {
                t
            } else {
                0
            },
        );
    } else {
        assert(before =~= Seq::empty());
    }
    if t == rows.len() - 1 {
        assert(seq![rows[t]].drop_last() =~= Seq::<usize>::empty());
        assert(cells_of(src, slot, full, nulls, Seq::empty()) == Ok::<
            Seq<Option<CellSeq>>,
            ScanError,
        >(Seq::empty()));
        assert(seq![rows[t]].last() == rows.last());
        assert(Seq::<Option<CellSeq>>::empty().push(v[t]) =~= seq![v[t]]);
    }
}

/// Reading several rows of a column gives for each of them what reading it alone gives.
pub proof fn law_row_alone<C: ColumnCodec>(
    c: C,
    strict: bool,
    kind: ColumnType,
    version: u8,
    body: Seq<u8>,
    bm: int,
    at: int,
    rows: Seq<usize>,
    v: Seq<Option<CellSeq>>,
    t: int,
)
    requires
        batch_cells(c, strict, kind, version, body, bm, at, rows) == Ok::<
            Option<Seq<Option<CellSeq>>>,
            ScanError,
        >(Some(v)),
        0 <= t < rows.len(),
    ensures
        v.len() == rows.len(),
        batch_cells(c, strict, kind, version, body, bm, at, seq![rows[t]]) == Ok::<
            Option<Seq<Option<CellSeq>>>,
            ScanError,
        >(Some(seq![v[t]])),
{
    reveal(batch_cells);
    let one = seq![rows[t]];
    assert(one.len() == 1);
    assert(crate::extract::no_cells(1) =~= seq![None::<CellSeq>]);
    assert forall|src: SourceSeq, slot: Slot, nulls: Seq<u8>|
        (#[trigger] cells_of(src, slot, false, nulls, rows)) is Ok implies ({
        let w = cells_of(src, slot, false, nulls, rows)->Ok_0;
        w.len() == rows.len() && cells_of(src, slot, false, nulls, one) == Ok::<
            Seq<Option<CellSeq>>,
            ScanError,
        >(seq![w[t]])
    }) by {
        cells_alone(
            src,
            slot,
            false,
            nulls,
            rows,
            cells_of(src, slot, false, nulls, rows)->Ok_0,
            t,
        );
    }
}

/// Whether numbers ascend.
pub open spec fn ascend(s: Seq<usize>) -> bool {
    forall|i: int, j: int| 0 <= i < j < s.len() ==> #[trigger] s[i] < #[trigger] s[j]
}

/// Whether `j` is among the first `k` numbers.
pub open spec fn among(s: Seq<usize>, k: int, j: int) -> bool {
    exists|t: int| 0 <= t < k && #[trigger] s[t] == j
}

pub(crate) proof fn placed_facts(buf: Seq<Option<CellSeq>>, outs: Seq<usize>, cells: Seq<Option<CellSeq>>)
    requires
        outs.len() == cells.len(),
        ascend(outs),
        forall|t: int| 0 <= t < outs.len() ==> #[trigger] outs[t] < buf.len(),
    ensures
        placed(buf, outs, cells).len() == buf.len(),
        forall|t: int|
            0 <= t < outs.len() ==> placed(buf, outs, cells)[#[trigger] outs[t] as int] == (
            match cells[t] {
                None => buf[outs[t] as int],
                Some(x) => Some(x),
            }),
        forall|j: int|
            0 <= j < buf.len() && !among(outs, outs.len() as int, j) ==> #[trigger] placed(
                buf,
                outs,
                cells,
            )[j] == buf[j],
    decreases cells.len(),
{
    if cells.len() > 0 {
        let last = outs.last();
        let now = match cells.last() {
            None => buf,
            Some(x) => buf.update(last as int, Some(x)),
        };
        let o = outs.drop_last();
        placed_facts(now, o, cells.drop_last());
        let r = placed(buf, outs, cells);
        assert(!among(o, o.len() as int, last as int)) by {
            if among(o, o.len() as int, last as int) {
                let t = choose|t: int| 0 <= t < o.len() && #[trigger] o[t] == last as int;
                assert(outs[t] < outs[outs.len() - 1]);
            }
        }
        assert(r[last as int] == now[last as int]);
        assert forall|t: int| 0 <= t < outs.len() implies r[#[trigger] outs[t] as int] == (
        match cells[t] {
            None => buf[outs[t] as int],
            Some(x) => Some(x),
        }) by {
            if t < outs.len() - 1 {
                assert(o[t] == outs[t]);
                assert(outs[t] < outs[outs.len() - 1]);
            }
        }
        assert forall|j: int| 0 <= j < buf.len() && !among(outs, outs.len() as int, j) implies
            #[trigger] r[j] == buf[j] by {
            if among(o, o.len() as int, j) {
                let t = choose|t: int| 0 <= t < o.len() && #[trigger] o[t] == j;
                assert(outs[t] == j);
            }
            assert(outs[outs.len() - 1] != j);
        }
    }
}

proof fn marked_facts(st: BatchSt, rows: FoundRowsSeq, k: int)
    requires
        0 <= k <= rows.outs.len(),
        rows.ids.len() == rows.outs.len(),
        st.ids.len() == st.found.len(),
        ascend(rows.outs),
        forall|t: int| 0 <= t < rows.outs.len() ==> #[trigger] rows.outs[t] < st.found.len(),
    ensures
        marked(st, rows, k).bufs == st.bufs,
        marked(st, rows, k).found.len() == st.found.len(),
        marked(st, rows, k).ids.len() == st.ids.len(),
        forall|t: int|
            0 <= t < k ==> marked(st, rows, k).found[#[trigger] rows.outs[t] as int] && marked(
                st,
                rows,
                k,
            ).ids[rows.outs[t] as int] == rows.ids[t],
        forall|j: int|
            0 <= j < st.found.len() && !(#[trigger] among(rows.outs, k, j)) ==> marked(
                st,
                rows,
                k,
            ).found[j] == st.found[j] && marked(st, rows, k).ids[j] == st.ids[j],
    decreases k,
{
    if k > 0 {
        marked_facts(st, rows, k - 1);
        let r = marked(st, rows, k);
        let before = marked(st, rows, k - 1);
        assert(rows.outs[k - 1] < st.found.len());
        assert(r.found == before.found.update(rows.outs[k - 1] as int, true));
        assert(r.ids == before.ids.update(rows.outs[k - 1] as int, rows.ids[k - 1]));
        assert(r.bufs == st.bufs);
        let last = rows.outs[k - 1];
        assert forall|t: int| 0 <= t < k implies r.found[#[trigger] rows.outs[t] as int]
            && r.ids[rows.outs[t] as int] == rows.ids[t] by {
            if t < k - 1 {
                assert(rows.outs[t] < rows.outs[k - 1]);
            }
        }
        assert forall|j: int|
            0 <= j < st.found.len() && !(#[trigger] among(rows.outs, k, j)) implies r.found[j]
            == st.found[j] && r.ids[j] == st.ids[j] by {
            assert(last != j);
            assert(!among(rows.outs, k - 1, j));
            assert(before.found[j] == st.found[j]);
        }
    }
}

/// The value of one row of column `col` of row group `i`, where it can be read.
pub open spec fn value_alone<C: ColumnCodec>(
    c: C,
    f: V4Footer,
    strict: bool,
    version: u8,
    body: Seq<u8>,
    i: int,
    col: int,
    row: usize,
) -> Option<CellSeq> {
    match f.rcix(i, col) {
        None => None,
        Some(at) => match batch_cells(
            c,
            strict,
            f.schema.kind(col),
            version,
            body,
            bitmap_len(f.row_groups@[i].row_count as int),
            at,
            seq![row],
        ) {
            Ok(Some(v)) => v[0],
            _ => None,
        },
    }
}

/// Whether there are buffers for `m` columns and places for `n` rows.
pub open spec fn st_fits(st: BatchSt, m: int, n: int) -> bool {
    &&& st.found.len() == n
    &&& st.ids.len() == n
    &&& st.bufs.len() == m
    &&& forall|p: int| 0 <= p < m ==> (#[trigger] st.bufs[p]).len() == n
}

#[verifier::spinoff_prover]
proof fn columns_facts<C: ColumnCodec>(
    c: C,
    f: V4Footer,
    strict: bool,
    version: u8,
    body: Seq<u8>,
    i: int,
    cols: Seq<usize>,
    rows: FoundRowsSeq,
    st: BatchSt,
    n: int,
    p: int,
)
    requires
        0 <= p <= cols.len(),
        st_fits(st, cols.len() as int, n),
        rows.rows.len() == rows.outs.len(),
        rows.rows.len() > 0,
        ascend(rows.outs),
        forall|t: int| 0 <= t < rows.outs.len() ==> #[trigger] rows.outs[t] < n,
        forall|q: int, t: int|
            0 <= q < cols.len() && 0 <= t < rows.outs.len() ==> (#[trigger] st.bufs[q])[
            #[trigger] rows.outs[t] as int] is None,
        batch_group_columns(c, f, strict, version, body, i, cols, rows, st, p) matches Ok(Some(_)),
    ensures
        ({
            let r = batch_group_columns(
                c,
                f,
                strict,
                version,
                body,
                i,
                cols,
                rows,
                st,
                p,
            )->Ok_0->Some_0;
            &&& st_fits(r, cols.len() as int, n)
            &&& r.found == st.found
            &&& r.ids == st.ids
            &&& forall|q: int, t: int|
                0 <= q < p && 0 <= t < rows.outs.len() ==> (#[trigger] r.bufs[q])[
                #[trigger] rows.outs[t] as int] == value_alone(
                    c,
                    f,
                    strict,
                    version,
                    body,
                    i,
                    cols[q] as int,
                    rows.rows[t],
                )
            &&& forall|q: int, j: int|
                0 <= q < p && 0 <= j < n && !among(rows.outs, rows.outs.len() as int, j)
                    ==> #[trigger] r.bufs[q][j] == st.bufs[q][j]
            &&& forall|q: int| p <= q < cols.len() ==> #[trigger] r.bufs[q] == st.bufs[q]
        }),
    decreases p,
{
    if p > 0 {
        columns_facts(c, f, strict, version, body, i, cols, rows, st, n, p - 1);
        let before = batch_group_columns(
            c,
            f,
            strict,
            version,
            body,
            i,
            cols,
            rows,
            st,
            p - 1,
        )->Ok_0->Some_0;
        let r = batch_group_columns(
            c,
            f,
            strict,
            version,
            body,
            i,
            cols,
            rows,
            st,
            p,
        )->Ok_0->Some_0;
        let col = cols[p - 1] as int;
        assert(before.bufs[p - 1] == st.bufs[p - 1]);
        if let Some(at) = f.rcix(i, col) {
            let kind = f.schema.kind(col);
            let bm = bitmap_len(f.row_groups@[i].row_count as int);
            let cells = batch_cells(c, strict, kind, version, body, bm, at, rows.rows)->Ok_0->Some_0;
            assert forall|t: int| 0 <= t < rows.rows.len() implies cells.len() == rows.rows.len()
                && #[trigger] cells[t] == value_alone(
                c,
                f,
                strict,
                version,
                body,
                i,
                col,
                rows.rows[t],
            ) by {
                law_row_alone(c, strict, kind, version, body, bm, at, rows.rows, cells, t);
            }
            law_row_alone(c, strict, kind, version, body, bm, at, rows.rows, cells, 0);
            placed_facts(st.bufs[p - 1], rows.outs, cells);
            assert forall|t: int| 0 <= t < rows.outs.len() implies r.bufs[p - 1][
            #[trigger] rows.outs[t] as int] == value_alone(
                c,
                f,
                strict,
                version,
                body,
                i,
                col,
                rows.rows[t],
            ) by {
                assert(st.bufs[p - 1][rows.outs[t] as int] is None);
                assert(cells[t] == value_alone(
                    c,
                    f,
                    strict,
                    version,
                    body,
                    i,
                    col,
                    rows.rows[t],
                ));
            }
        }
    }
}

pub(crate) proof fn group_facts<C: ColumnCodec>(
    c: C,
    f: V4Footer,
    strict: bool,
    version: u8,
    body: Seq<u8>,
    i: int,
    cols: Seq<usize>,
    rows: FoundRowsSeq,
    st: BatchSt,
    n: int,
)
    requires
        st_fits(st, cols.len() as int, n),
        rows.rows.len() == rows.outs.len(),
        rows.ids.len() == rows.outs.len(),
        rows.rows.len() > 0,
        ascend(rows.outs),
        forall|t: int| 0 <= t < rows.outs.len() ==> #[trigger] rows.outs[t] < n,
        forall|q: int, t: int|
            0 <= q < cols.len() && 0 <= t < rows.outs.len() ==> (#[trigger] st.bufs[q])[
            #[trigger] rows.outs[t] as int] is None,
        batch_group_columns(
            c,
            f,
            strict,
            version,
            body,
            i,
            cols,
            rows,
            marked(st, rows, rows.outs.len() as int),
            cols.len() as int,
        ) matches Ok(Some(_)),
    ensures
        ({
            let r = batch_group_columns(
                c,
                f,
                strict,
                version,
                body,
                i,
                cols,
                rows,
                marked(st, rows, rows.outs.len() as int),
                cols.len() as int,
            )->Ok_0->Some_0;
            &&& st_fits(r, cols.len() as int, n)
            &&& forall|t: int|
                0 <= t < rows.outs.len() ==> r.found[#[trigger] rows.outs[t] as int]
                    && r.ids[rows.outs[t] as int] == rows.ids[t]
            &&& forall|j: int|
                0 <= j < n && !(#[trigger] among(rows.outs, rows.outs.len() as int, j))
                    ==> r.found[j] == st.found[j] && r.ids[j] == st.ids[j]
            &&& forall|q: int, t: int|
                0 <= q < cols.len() && 0 <= t < rows.outs.len() ==> (#[trigger] r.bufs[q])[
                #[trigger] rows.outs[t] as int] == value_alone(
                    c,
                    f,
                    strict,
                    version,
                    body,
                    i,
                    cols[q] as int,
                    rows.rows[t],
                )
            &&& forall|q: int, j: int|
                0 <= q < cols.len() && 0 <= j < n && !among(rows.outs, rows.outs.len() as int, j)
                    ==> #[trigger] r.bufs[q][j] == st.bufs[q][j]
        }),
{
    let all = rows.outs.len() as int;
    marked_facts(st, rows, all);
    columns_facts(
        c,
        f,
        strict,
        version,
        body,
        i,
        cols,
        rows,
        marked(st, rows, all),
        n,
        cols.len() as int,
    );
}

/// Where the live row with an identifier is: its row group and its number in it.
pub open spec fn live_here(f: V4Footer, file: Seq<u8>, id: u64) -> Option<(int, int)> {
    match home(f.row_groups@, id) {
        None => None,
        Some(i) => {
            let meta = f.row_groups@[i as int];
            match stored_group(meta, file) {
                Err(_) => None,
                Ok(s) => if id_section(meta.row_count as int, s[30]) > tail(s, 32).len() {
                    None
                } else {
                    match live_row(meta, tail(s, 32), s[30], id) {
                        None => None,
                        Some(row) => Some((i as int, row)),
                    }
                },
            }
        },
    }
}

/// The value of column `col` in the live row with an identifier.
pub open spec fn value_here<C: ColumnCodec>(
    c: C,
    f: V4Footer,
    file: Seq<u8>,
    col: int,
    id: u64,
) -> Option<CellSeq> {
    match live_here(f, file, id) {
        None => None,
        Some((i, row)) => {
            let s = stored_group(f.row_groups@[i], file)->Ok_0;
            value_alone(c, f, false, s[29], tail(s, 32), i, col, row as usize)
        },
    }
}

proof fn outs_facts(hs: Seq<Option<usize>>, i: int, k: int)
    requires
        0 <= i <= usize::MAX,
        0 <= k <= hs.len() <= usize::MAX,
    ensures
        ascend(outs_in(hs, i, k)),
        forall|t: int|
            0 <= t < outs_in(hs, i, k).len() ==> (#[trigger] outs_in(hs, i, k)[t]) < k && hs[outs_in(
                hs,
                i,
                k,
            )[t] as int] == Some(i as usize),
        forall|j: int|
            0 <= j < k && #[trigger] hs[j] == Some(i as usize) ==> among(
                outs_in(hs, i, k),
                outs_in(hs, i, k).len() as int,
                j,
            ),
    decreases k,
{
    if k > 0 {
        outs_facts(hs, i, k - 1);
        let before = outs_in(hs, i, k - 1);
        let r = outs_in(hs, i, k);
        assert forall|j: int| 0 <= j < k && #[trigger] hs[j] == Some(i as usize) implies among(
            r,
            r.len() as int,
            j,
        ) by {
            if j < k - 1 {
                let t = choose|t: int| 0 <= t < before.len() && #[trigger] before[t] == j;
                assert(r[t] == j);
            } else {
                assert(r[r.len() - 1] == j);
            }
        }
    }
}

proof fn live_ids_facts(
    meta: RowGroupMeta,
    body: Seq<u8>,
    enc: u8,
    ids: Seq<u64>,
    outs: Seq<usize>,
    k: int,
)
    requires
        0 <= k <= outs.len(),
        ascend(outs),
        id_section(meta.row_count as int, enc) <= body.len(),
        forall|t: int| 0 <= t < outs.len() ==> #[trigger] outs[t] < ids.len(),
        forall|t: int| 0 <= t < outs.len() ==> meta.min_id <= ids[#[trigger] outs[t] as int],
    ensures
        ({
            let r = live_ids(meta, body, enc, ids, outs, k);
            &&& r.rows.len() == r.outs.len()
            &&& r.ids.len() == r.outs.len()
            &&& ascend(r.outs)
            &&& forall|t: int|
                0 <= t < r.outs.len() ==> among(outs, k, #[trigger] r.outs[t] as int) && live_row(
                    meta,
                    body,
                    enc,
                    ids[r.outs[t] as int],
                ) == Some(r.rows[t] as int) && r.ids[t] == signed(ids[r.outs[t] as int] as int) as i64
            &&& forall|u: int|
                0 <= u < k && live_row(meta, body, enc, ids[#[trigger] outs[u] as int]) is Some
                    ==> among(r.outs, r.outs.len() as int, outs[u] as int)
        }),
    decreases k,
{
    if k > 0 {
        live_ids_facts(meta, body, enc, ids, outs, k - 1);
        let before = live_ids(meta, body, enc, ids, outs, k - 1);
        let r = live_ids(meta, body, enc, ids, outs, k);
        let at = outs[k - 1];
        law_row_has_id(meta, body, enc, ids[at as int]);
        assert forall|t: int| 0 <= t < before.outs.len() implies among(
            outs,
            k,
            #[trigger] before.outs[t] as int,
        ) && before.outs[t] < at by {
            assert(among(outs, k - 1, before.outs[t] as int));
            let u = choose|u: int| 0 <= u < k - 1 && #[trigger] outs[u] == before.outs[t] as int;
            assert(outs[u] < outs[k - 1]);
        }
        assert forall|u: int|
            0 <= u < k && live_row(meta, body, enc, ids[#[trigger] outs[u] as int]) is Some implies
            among(r.outs, r.outs.len() as int, outs[u] as int) by {
            if u < k - 1 {
                let t = choose|t: int|
                    0 <= t < before.outs.len() && #[trigger] before.outs[t] == outs[u] as int;
                assert(r.outs[t] == outs[u]);
            } else {
                assert(r.outs[r.outs.len() - 1] == outs[u]);
            }
        }
    }
}

/// Whether the place of identifier `j` holds what the first `k` row groups hold of it.
pub open spec fn right_at<C: ColumnCodec>(
    c: C,
    f: V4Footer,
    file: Seq<u8>,
    cols: Seq<usize>,
    ids: Seq<u64>,
    k: int,
    st: BatchSt,
    j: int,
) -> bool {
    let h = home(f.row_groups@, ids[j]);
    if h is Some && h->0 < k && live_here(f, file, ids[j]) is Some {
        &&& st.found[j]
        &&& st.ids[j] == signed(ids[j] as int) as i64
        &&& forall|q: int|
            0 <= q < cols.len() ==> (#[trigger] st.bufs[q])[j] == value_here(
                c,
                f,
                file,
                cols[q] as int,
                ids[j],
            )
    } else {
        &&& !st.found[j]
        &&& forall|q: int| 0 <= q < cols.len() ==> (#[trigger] st.bufs[q])[j] is None
    }
}

/// Whether two collections agree on place `j`.
pub open spec fn same_at(a: BatchSt, b: BatchSt, m: int, j: int) -> bool {
    &&& a.found[j] == b.found[j]
    &&& a.ids[j] == b.ids[j]
    &&& forall|q: int| 0 <= q < m ==> (#[trigger] a.bufs[q])[j] == b.bufs[q][j]
}

proof fn right_kept<C: ColumnCodec>(
    c: C,
    f: V4Footer,
    file: Seq<u8>,
    cols: Seq<usize>,
    ids: Seq<u64>,
    i: int,
    st: BatchSt,
    r: BatchSt,
    j: int,
)
    requires
        0 <= i <= usize::MAX,
        right_at(c, f, file, cols, ids, i, st, j),
        same_at(r, st, cols.len() as int, j),
        home(f.row_groups@, ids[j]) != Some(i as usize) || live_here(f, file, ids[j]) is None,
    ensures
        right_at(c, f, file, cols, ids, i + 1, r, j),
{
}

#[verifier::spinoff_prover]
proof fn known_found_step<C: ColumnCodec>(
    c: C,
    f: V4Footer,
    file: Seq<u8>,
    cols: Seq<usize>,
    ids: Seq<u64>,
    i: int,
    st: BatchSt,
    r: BatchSt,
)
    requires
        0 <= i < f.row_groups@.len() <= usize::MAX,
        ids.len() <= usize::MAX,
        st_fits(st, cols.len() as int, ids.len() as int),
        forall|j: int|
            0 <= j < ids.len() ==> #[trigger] right_at(c, f, file, cols, ids, i, st, j),
        stored_group(f.row_groups@[i], file) is Ok,
        ({
            let outs = outs_in(homes(f.row_groups@, ids), i, ids.len() as int);
            let s = stored_group(f.row_groups@[i], file)->Ok_0;
            let body = tail(s, 32);
            let found = live_ids(f.row_groups@[i], body, s[30], ids, outs, outs.len() as int);
            &&& id_section(f.row_groups@[i].row_count as int, s[30]) <= body.len()
            &&& found.rows.len() > 0
            &&& batch_group_columns(
                c,
                f,
                false,
                s[29],
                body,
                i,
                cols,
                found,
                marked(st, found, found.outs.len() as int),
                cols.len() as int,
            ) == Ok::<Option<BatchSt>, ScanError>(Some(r))
        }),
    ensures
        st_fits(r, cols.len() as int, ids.len() as int),
        forall|j: int|
            0 <= j < ids.len() ==> #[trigger] right_at(c, f, file, cols, ids, i + 1, r, j),
{
    let n = ids.len() as int;
    let m = cols.len() as int;
    let hs = homes(f.row_groups@, ids);
    let outs = outs_in(hs, i, n);
    let meta = f.row_groups@[i];
    outs_facts(hs, i, n);
    assert forall|t: int| 0 <= t < outs.len() implies meta.min_id <= ids[#[trigger] outs[t] as int]
        && home(f.row_groups@, ids[outs[t] as int]) == Some(i as usize) by {
        assert(hs[outs[t] as int] == Some(i as usize));
        home_starts_below(f.row_groups@, ids[outs[t] as int], 0);
    }
    let s = stored_group(meta, file)->Ok_0;
    let body = tail(s, 32);
    let found = live_ids(meta, body, s[30], ids, outs, outs.len() as int);
    let all = found.outs.len() as int;
    live_ids_facts(meta, body, s[30], ids, outs, outs.len() as int);
    assert forall|t: int| 0 <= t < all implies (#[trigger] found.outs[t]) < n && home(
        f.row_groups@,
        ids[found.outs[t] as int],
    ) == Some(i as usize) by {
        assert(among(outs, outs.len() as int, found.outs[t] as int));
    }
    assert forall|q: int, t: int| 0 <= q < m && 0 <= t < all implies (#[trigger] st.bufs[q])[
    #[trigger] found.outs[t] as int] is None by {
        assert(right_at(c, f, file, cols, ids, i, st, found.outs[t] as int));
    }
    group_facts(c, f, false, s[29], body, i, cols, found, st, n);
    assert forall|j: int| 0 <= j < n implies #[trigger] right_at(
        c,
        f,
        file,
        cols,
        ids,
        i + 1,
        r,
        j,
    ) by {
        if among(found.outs, all, j) {
            let t = choose|t: int| 0 <= t < all && #[trigger] found.outs[t] == j;
            assert(live_here(f, file, ids[j]) == Some((i, found.rows[t] as int)));
            assert(r.found[found.outs[t] as int]);
            assert forall|q: int| 0 <= q < m implies (#[trigger] r.bufs[q])[j] == value_here(
                c,
                f,
                file,
                cols[q] as int,
                ids[j],
            ) by {
                assert(r.bufs[q][found.outs[t] as int] == value_alone(
                    c,
                    f,
                    false,
                    s[29],
                    body,
                    i,
                    cols[q] as int,
                    found.rows[t],
                ));
            }
        } else {
            assert(right_at(c, f, file, cols, ids, i, st, j));
            if hs[j] == Some(i as usize) {
                let u = choose|u: int| 0 <= u < outs.len() && #[trigger] outs[u] == j;
                assert(live_row(meta, body, s[30], ids[outs[u] as int]) is None);
            }
            assert forall|q: int| 0 <= q < m implies (#[trigger] r.bufs[q])[j] == st.bufs[q][j] by {
                assert(r.bufs[q][j] == st.bufs[q][j]);
            }
            assert(same_at(r, st, m, j));
            right_kept(c, f, file, cols, ids, i, st, r, j);
        }
    }
}

#[verifier::spinoff_prover]
proof fn known_step<C: ColumnCodec>(
    c: C,
    f: V4Footer,
    file: Seq<u8>,
    cols: Seq<usize>,
    ids: Seq<u64>,
    i: int,
    st: BatchSt,
    r: BatchSt,
)
    requires
        0 <= i < f.row_groups@.len() <= usize::MAX,
        ids.len() <= usize::MAX,
        st_fits(st, cols.len() as int, ids.len() as int),
        forall|j: int|
            0 <= j < ids.len() ==> #[trigger] right_at(c, f, file, cols, ids, i, st, j),
        known_group(
            c,
            f,
            file,
            cols,
            ids,
            outs_in(homes(f.row_groups@, ids), i, ids.len() as int),
            i,
            st,
        ) == Ok::<Option<BatchSt>, ScanError>(Some(r)),
    ensures
        st_fits(r, cols.len() as int, ids.len() as int),
        forall|j: int|
            0 <= j < ids.len() ==> #[trigger] right_at(c, f, file, cols, ids, i + 1, r, j),
{
    let n = ids.len() as int;
    let hs = homes(f.row_groups@, ids);
    let outs = outs_in(hs, i, n);
    let meta = f.row_groups@[i];
    outs_facts(hs, i, n);
    assert forall|t: int| 0 <= t < outs.len() implies meta.min_id <= ids[#[trigger] outs[t] as int]
        && home(f.row_groups@, ids[outs[t] as int]) == Some(i as usize) by {
        assert(hs[outs[t] as int] == Some(i as usize));
        home_starts_below(f.row_groups@, ids[outs[t] as int], 0);
    }
    let quiet = outs.len() == 0 || stored_group(meta, file) is Err || ({
        let s = stored_group(meta, file)->Ok_0;
        let body = tail(s, 32);
        id_section(meta.row_count as int, s[30]) > body.len() || live_ids(
            meta,
            body,
            s[30],
            ids,
            outs,
            outs.len() as int,
        ).rows.len() == 0
    });
    if quiet {
        assert(r == st);
        assert forall|j: int| 0 <= j < n implies #[trigger] right_at(
            c,
            f,
            file,
            cols,
            ids,
            i + 1,
            r,
            j,
        ) by {
            if hs[j] == Some(i as usize) && stored_group(meta, file) is Ok {
                let s = stored_group(meta, file)->Ok_0;
                let body = tail(s, 32);
                if id_section(meta.row_count as int, s[30]) <= body.len() {
                    live_ids_facts(meta, body, s[30], ids, outs, outs.len() as int);
                    let u = choose|u: int| 0 <= u < outs.len() && #[trigger] outs[u] == j;
                    assert(live_row(meta, body, s[30], ids[outs[u] as int]) is None);
                }
            }
            assert(right_at(c, f, file, cols, ids, i, st, j));
            right_kept(c, f, file, cols, ids, i, st, r, j);
        }
    } else {
        known_found_step(c, f, file, cols, ids, i, st, r);
    }
}

#[verifier::spinoff_prover]
proof fn known_upto_right<C: ColumnCodec>(
    c: C,
    f: V4Footer,
    file: Seq<u8>,
    cols: Seq<usize>,
    ids: Seq<u64>,
    k: int,
    st: BatchSt,
)
    requires
        0 <= k <= f.row_groups@.len() <= usize::MAX,
        ids.len() <= usize::MAX,
        known_upto(c, f, file, cols, ids, k) == Ok::<Option<BatchSt>, ScanError>(Some(st)),
    ensures
        st_fits(st, cols.len() as int, ids.len() as int),
        forall|j: int|
            0 <= j < ids.len() ==> #[trigger] right_at(c, f, file, cols, ids, k, st, j),
    decreases k,
{
    if k > 0 {
        let before = known_upto(c, f, file, cols, ids, k - 1)->Ok_0->Some_0;
        known_upto_right(c, f, file, cols, ids, k - 1, before);
        let i = k - 1;
        known_step(c, f, file, cols, ids, i, before, st);
        assert forall|j: int| 0 <= j < ids.len() implies #[trigger] right_at(
            c,
            f,
            file,
            cols,
            ids,
            k,
            st,
            j,
        ) by {
            assert(right_at(c, f, file, cols, ids, i + 1, st, j));
        }
    } else {
        assert(st == batch_start(cols.len() as int, ids.len() as int));
        assert forall|j: int| 0 <= j < ids.len() implies #[trigger] right_at(
            c,
            f,
            file,
            cols,
            ids,
            k,
            st,
            j,
        ) by {
            assert(!st.found[j]);
        }
    }
}

/// Those of the first `k` identifiers that belong to live rows.
pub open spec fn asked_ids(f: V4Footer, file: Seq<u8>, ids: Seq<u64>, k: int) -> Seq<i64>
    decreases k,
{
    if k <= 0 {
        Seq::empty()
    } else if live_here(f, file, ids[k - 1]) is Some {
        asked_ids(f, file, ids, k - 1).push(signed(ids[k - 1] as int) as i64)
    } else {
        asked_ids(f, file, ids, k - 1)
    }
}

/// The values of column `col` in the live rows among those with the first `k` identifiers.
pub open spec fn asked_values<C: ColumnCodec>(
    c: C,
    f: V4Footer,
    file: Seq<u8>,
    col: int,
    ids: Seq<u64>,
    k: int,
) -> Seq<Option<CellSeq>>
    decreases k,
{
    if k <= 0 {
        Seq::empty()
    } else if live_here(f, file, ids[k - 1]) is Some {
        asked_values(c, f, file, col, ids, k - 1).push(value_here(c, f, file, col, ids[k - 1]))
    } else {
        asked_values(c, f, file, col, ids, k - 1)
    }
}

proof fn kept_ids_right<C: ColumnCodec>(
    c: C,
    f: V4Footer,
    file: Seq<u8>,
    cols: Seq<usize>,
    ids: Seq<u64>,
    st: BatchSt,
    k: int,
)
    requires
        0 <= k <= ids.len() <= usize::MAX,
        f.row_groups@.len() <= usize::MAX,
        forall|j: int|
            0 <= j < ids.len() ==> #[trigger] right_at(
                c,
                f,
                file,
                cols,
                ids,
                f.row_groups@.len() as int,
                st,
                j,
            ),
    ensures
        kept(st.found, st.ids, k) == asked_ids(f, file, ids, k),
    decreases k,
{
    if k > 0 {
        kept_ids_right(c, f, file, cols, ids, st, k - 1);
        assert(right_at(c, f, file, cols, ids, f.row_groups@.len() as int, st, k - 1));
        home_starts_below(f.row_groups@, ids[k - 1], 0);
    }
}

proof fn kept_values_right<C: ColumnCodec>(
    c: C,
    f: V4Footer,
    file: Seq<u8>,
    cols: Seq<usize>,
    ids: Seq<u64>,
    st: BatchSt,
    q: int,
    k: int,
)
    requires
        0 <= q < cols.len(),
        0 <= k <= ids.len() <= usize::MAX,
        f.row_groups@.len() <= usize::MAX,
        forall|j: int|
            0 <= j < ids.len() ==> #[trigger] right_at(
                c,
                f,
                file,
                cols,
                ids,
                f.row_groups@.len() as int,
                st,
                j,
            ),
    ensures
        kept(st.found, st.bufs[q], k) == asked_values(c, f, file, cols[q] as int, ids, k),
    decreases k,
{
    if k > 0 {
        kept_values_right(c, f, file, cols, ids, st, q, k - 1);
        assert(right_at(c, f, file, cols, ids, f.row_groups@.len() as int, st, k - 1));
        home_starts_below(f.row_groups@, ids[k - 1], 0);
        assert(st.bufs[q][k - 1] == st.bufs[q][k - 1]);
    }
}

pub(crate) proof fn kept_columns_are(schema: OnDemandSchema, cols: Seq<usize>, st: BatchSt, p: int)
    requires
        0 <= p <= cols.len(),
    ensures
        kept_columns(schema, cols, st, p).len() == p,
        forall|q: int|
            0 <= q < p ==> #[trigger] kept_columns(schema, cols, st, p)[q] == (
                schema.columns@[cols[q] as int].0@,
                typed_column(
                    batch_slot(schema.kind(cols[q] as int)),
                    kept(st.found, st.bufs[q], st.found.len() as int),
                ),
            ),
    decreases p,
{
    if p > 0 {
        kept_columns_are(schema, cols, st, p - 1);
        let before = kept_columns(schema, cols, st, p - 1);
        assert forall|q: int| 0 <= q < p implies #[trigger] kept_columns(schema, cols, st, p)[q] == (
            schema.columns@[cols[q] as int].0@,
            typed_column(
                batch_slot(schema.kind(cols[q] as int)),
                kept(st.found, st.bufs[q], st.found.len() as int),
            ),
        ) by {
            if q < p - 1 {
                assert(kept_columns(schema, cols, st, p)[q] == before[q]);
            }
        }
    }
}

impl<C: ColumnCodec> OnDemandStorage<C> {
    /// Rows that are asked for by identifier come back in the order in which they are asked for, the
    /// live ones and no others, each behind its identifier and with the values that are read of it
    /// alone.
    pub proof fn law_known_rows(
        self,
        ids: Seq<u64>,
        names: Option<Seq<Seq<char>>>,
        b: BatchColumnsSeq,
        f: V4Footer,
        file: Vec<u8>,
        cols: Seq<usize>,
    )
        requires
            0 < ids.len() <= usize::MAX,
            f.row_groups@.len() <= usize::MAX,
            self.footer == Some(f),
            self.file == Some(file),
            columns_wanted(f.schema, names) == Some(cols),
            self.known_rows(ids, names) == Ok::<Option<BatchColumnsSeq>, ScanError>(Some(b)),
        ensures
            ({
                let n = ids.len() as int;
                let live = asked_ids(f, file@, ids, n);
                &&& b.row_count == live.len()
                &&& b.row_count == 0 ==> b.columns.len() == 0
                &&& b.row_count > 0 ==> {
                    &&& b.columns.len() == cols.len() + 1
                    &&& b.columns[0] == ("_id"@, BatchColumnSeq::I64(some_ids(live)))
                    &&& forall|q: int|
                        0 <= q < cols.len() ==> b.columns[q + 1] == (
                            f.schema.columns@[#[trigger] cols[q] as int].0@,
                            typed_column(
                                batch_slot(f.schema.kind(cols[q] as int)),
                                asked_values(self.codec, f, file@, cols[q] as int, ids, n),
                            ),
                        )
                }
            }),
    {
        let n = ids.len() as int;
        let k = f.row_groups@.len() as int;
        let m = cols.len() as int;
        let c = self.codec;
        let st = known_upto(c, f, file@, cols, ids, k)->Ok_0->Some_0;
        known_upto_right(c, f, file@, cols, ids, k, st);
        kept_ids_right(c, f, file@, cols, ids, st, n);
        kept_columns_are(f.schema, cols, st, m);
        assert forall|q: int| 0 <= q < m && b.row_count > 0 implies b.columns[q + 1] == (
            f.schema.columns@[#[trigger] cols[q] as int].0@,
            typed_column(
                batch_slot(f.schema.kind(cols[q] as int)),
                asked_values(c, f, file@, cols[q] as int, ids, n),
            ),
        ) by {
            kept_values_right(c, f, file@, cols, ids, st, q, n);
            assert(b.columns[q + 1] == kept_columns(f.schema, cols, st, m)[q]);
        }
    }
}

/// Whether the rows of column `col` of row group `i` can be read, where the column is there.
pub open spec fn reads_well<C: ColumnCodec>(
    c: C,
    f: V4Footer,
    version: u8,
    body: Seq<u8>,
    i: int,
    rows: Seq<usize>,
    col: int,
) -> bool {
    f.rcix(i, col) matches Some(at) ==> batch_cells(
        c,
        false,
        f.schema.kind(col),
        version,
        body,
        bitmap_len(f.row_groups@[i].row_count as int),
        at,
        rows,
    ) matches Ok(Some(_))
}

proof fn columns_read_well<C: ColumnCodec>(
    c: C,
    f: V4Footer,
    version: u8,
    body: Seq<u8>,
    i: int,
    cols: Seq<usize>,
    rows: FoundRowsSeq,
    st: BatchSt,
    p: int,
)
    requires
        0 <= p <= cols.len(),
    ensures
        (batch_group_columns(c, f, false, version, body, i, cols, rows, st, p) matches Ok(Some(_)))
            == (forall|q: int|
            0 <= q < p ==> reads_well(
                c,
                f,
                version,
                body,
                i,
                rows.rows,
                #[trigger] cols[q] as int,
            )),
    decreases p,
{
    if p > 0 {
        columns_read_well(c, f, version, body, i, cols, rows, st, p - 1);
        let col = cols[p - 1] as int;
        assert(reads_well(c, f, version, body, i, rows.rows, col) || !reads_well(
            c,
            f,
            version,
            body,
            i,
            rows.rows,
            col,
        ));
    }
}

proof fn fewer_columns<C: ColumnCodec>(
    c: C,
    f: V4Footer,
    file: Seq<u8>,
    cols: Seq<usize>,
    fewer: Seq<usize>,
    ids: Seq<u64>,
    k: int,
)
    requires
        0 <= k,
        known_upto(c, f, file, cols, ids, k) matches Ok(Some(_)),
        forall|q: int| 0 <= q < fewer.len() ==> cols.contains(#[trigger] fewer[q]),
    ensures
        known_upto(c, f, file, fewer, ids, k) matches Ok(Some(_)),
    decreases k,
{
    if k > 0 {
        fewer_columns(c, f, file, cols, fewer, ids, k - 1);
        let i = k - 1;
        let meta = f.row_groups@[i];
        let st = known_upto(c, f, file, cols, ids, i)->Ok_0->Some_0;
        let st2 = known_upto(c, f, file, fewer, ids, i)->Ok_0->Some_0;
        let outs = outs_in(homes(f.row_groups@, ids), i, ids.len() as int);
        if outs.len() > 0 {
            if let Ok(s) = stored_group(meta, file) {
                let body = tail(s, 32);
                let found = live_ids(meta, body, s[30], ids, outs, outs.len() as int);
                let n = found.outs.len() as int;
                columns_read_well(
                    c,
                    f,
                    s[29],
                    body,
                    i,
                    cols,
                    found,
                    marked(st, found, n),
                    cols.len() as int,
                );
                columns_read_well(
                    c,
                    f,
                    s[29],
                    body,
                    i,
                    fewer,
                    found,
                    marked(st2, found, n),
                    fewer.len() as int,
                );
                if batch_group_columns(
                    c,
                    f,
                    false,
                    s[29],
                    body,
                    i,
                    cols,
                    found,
                    marked(st, found, n),
                    cols.len() as int,
                ) matches Ok(Some(_)) {
                    assert forall|q: int| 0 <= q < fewer.len() implies reads_well(
                        c,
                        f,
                        s[29],
                        body,
                        i,
                        found.rows,
                        #[trigger] fewer[q] as int,
                    ) by {
                        let x = choose|x: int| 0 <= x < cols.len() && cols[x] == fewer[q];
                        assert(reads_well(c, f, s[29], body, i, found.rows, cols[x] as int));
                    }
                }
            }
        }
    }
}

proof fn named_there(schema: OnDemandSchema, names: Seq<Seq<char>>, k: int)
    requires
        0 <= k <= names.len(),
        columns_named(schema, names, k) is Some,
    ensures
        columns_named(schema, names, k)->0.len() == k,
        forall|q: int|
            0 <= q < k ==> schema.index_of(names[q]) == Some(
                #[trigger] columns_named(schema, names, k)->0[q],
            ),
    decreases k,
{
    if k > 0 {
        named_there(schema, names, k - 1);
        let before = columns_named(schema, names, k - 1)->0;
        let now = columns_named(schema, names, k)->0;
        assert forall|q: int| 0 <= q < k implies schema.index_of(names[q]) == Some(
            #[trigger] now[q],
        ) by {
            if q < k - 1 {
                assert(now[q] == before[q]);
            }
        }
    }
}

impl<C: ColumnCodec> OnDemandStorage<C> {
    /// A read of some columns gives of the full read, wherever that succeeds, the identifiers and the
    /// columns with the given names, in the order of the names. A name that the schema does not have
    /// leaves no answer.
    pub proof fn law_projected_read(
        self,
        ids: Seq<u64>,
        names: Seq<Seq<char>>,
        all: BatchColumnsSeq,
        f: V4Footer,
        file: Vec<u8>,
    )
        requires
            0 < ids.len() <= usize::MAX,
            f.row_groups@.len() <= usize::MAX,
            f.schema.columns@.len() <= usize::MAX,
            self.footer == Some(f),
            self.file == Some(file),
            self.known_rows(ids, None) == Ok::<Option<BatchColumnsSeq>, ScanError>(Some(all)),
            all.row_count > 0,
        ensures
            columns_wanted(f.schema, Some(names)) is None ==> self.known_rows(ids, Some(names))
                == Ok::<Option<BatchColumnsSeq>, ScanError>(None),
            columns_wanted(f.schema, Some(names)) is Some ==> {
                &&& self.known_rows(ids, Some(names)) matches Ok(Some(b))
                &&& b.row_count == all.row_count
                &&& b.columns.len() == names.len() + 1
                &&& b.columns[0] == all.columns[0]
                &&& forall|q: int|
                    0 <= q < names.len() ==> f.schema.index_of(#[trigger] names[q]) is Some
                        && b.columns[q + 1] == all.columns[f.schema.index_of(names[q])->0 + 1]
                        && b.columns[q + 1].0 == names[q]
            },
    {
        let c = self.codec;
        let k = f.row_groups@.len() as int;
        let every = span(0, f.schema.columns@.len() as int);
        self.law_known_rows(ids, None, all, f, file, every);
        if let Some(cols) = columns_wanted(f.schema, Some(names)) {
            named_there(f.schema, names, names.len() as int);
            assert forall|q: int| 0 <= q < cols.len() implies every.contains(#[trigger] cols[q]) by {
                assert(f.schema.index_of(names[q]) == Some(cols[q]));
                f.schema.law_found_by_name(names[q]);
                assert(every[cols[q] as int] == cols[q]);
            }
            fewer_columns(c, f, file@, every, cols, ids, k);
            let b = self.known_rows(ids, Some(names))->Ok_0->Some_0;
            self.law_known_rows(ids, Some(names), b, f, file, cols);
            assert forall|q: int| 0 <= q < names.len() implies f.schema.index_of(
                #[trigger] names[q],
            ) is Some && b.columns[q + 1] == all.columns[f.schema.index_of(names[q])->0 + 1]
                && b.columns[q + 1].0 == names[q] by {
                assert(f.schema.index_of(names[q]) == Some(cols[q]));
                f.schema.law_found_by_name(names[q]);
                assert(every[cols[q] as int] == cols[q]);
            }
        }
    }
}

} // verus!
