//! What holds of rows that are read by their numbers.

use vstd::prelude::*;

use crate::bytes::{bit, bitmap_len, signed};
use crate::cells::CellSeq;
use crate::codec::ColumnCodec;
use crate::extract::{all_hits, hits_between, hits_of, names_have, needed_of, HitsSeq};
use crate::group::{id_at, id_section, stored_group, tail, window};
use crate::model::{rows_before, rows_before_monotonic, RowGroupMeta, ScanError, V4Footer};
use crate::retrieve::{
    batch_group_columns, batch_slot, batch_start, kept, kept_columns, live_hits, marked,
    needed_columns, numbered_group, numbered_upto, some_ids, BatchColumnsSeq, BatchSt,
};
use crate::retrieve_laws::{
    among, ascend, group_facts, kept_columns_are, same_at, st_fits, value_alone,
};
use crate::row_batch::{typed_column, BatchColumnSeq};
use crate::storage::OnDemandStorage;

verus! {

/// The one of the first `k` row groups that row `index` lies in.
pub open spec fn group_holding(groups: Seq<RowGroupMeta>, index: int, k: int) -> Option<int>
    decreases k,
{
    if k <= 0 {
        None
    } else if rows_before(groups, k - 1) <= index < rows_before(groups, k) {
        Some(k - 1)
    } else {
        group_holding(groups, index, k - 1)
    }
}

/// The row group that a row lies in is the only one.
pub proof fn law_one_group(groups: Seq<RowGroupMeta>, index: int, k: int, i: int)
    requires
        0 <= i < k,
    ensures
        group_holding(groups, index, k) == Some(i) <==> rows_before(groups, i) <= index
            < rows_before(groups, i + 1),
    decreases k,
{
    if i < k - 1 {
        rows_before_monotonic(groups, i + 1, k - 1);
        law_one_group(groups, index, k - 1, i);
    } else {
        group_below(groups, index, k - 1);
    }
}

pub(crate) proof fn group_below(groups: Seq<RowGroupMeta>, index: int, k: int)
    requires
        0 <= k,
    ensures
        group_holding(groups, index, k) matches Some(i) ==> 0 <= i < k && rows_before(groups, i)
            <= index < rows_before(groups, i + 1) && index < rows_before(groups, k),
    decreases k,
{
    if k > 0 {
        group_below(groups, index, k - 1);
        rows_before_monotonic(groups, k - 1, k);
    }
}

/// What row `row` of row group `i` has for an identifier, where the row is live.
pub open spec fn live_id(f: V4Footer, file: Seq<u8>, i: int, row: int) -> Option<int> {
    let meta = f.row_groups@[i];
    match stored_group(meta, file) {
        Err(_) => None,
        Ok(s) => {
            let body = tail(s, 32);
            match window(
                body,
                id_section(meta.row_count as int, s[30]),
                bitmap_len(meta.row_count as int),
            ) {
                None => None,
                Some(deleted) => if meta.deletion_count > 0 && bit(deleted, row) {
                    None
                } else {
                    id_at(body, meta.min_id, s[30], row)
                },
            }
        },
    }
}

/// The identifier of row `index`, where it is live and lies in the first `k` row groups.
pub open spec fn id_of_number(f: V4Footer, file: Seq<u8>, index: int, k: int) -> Option<int> {
    match group_holding(f.row_groups@, index, k) {
        None => None,
        Some(i) => live_id(f, file, i, index - rows_before(f.row_groups@, i)),
    }
}

/// The value of column `col` in row `index`, where it lies in the first `k` row groups.
pub open spec fn value_of_number<C: ColumnCodec>(
    c: C,
    f: V4Footer,
    file: Seq<u8>,
    col: int,
    index: int,
    k: int,
) -> Option<CellSeq> {
    match group_holding(f.row_groups@, index, k) {
        None => None,
        Some(i) => {
            let s = stored_group(f.row_groups@[i], file)->Ok_0;
            let row = (index - rows_before(f.row_groups@, i)) as usize;
            value_alone(c, f, true, s[29], tail(s, 32), i, col, row)
        },
    }
}

/// Whether place `j` holds what the first `k` row groups hold of the row that is asked for there.
pub open spec fn number_right<C: ColumnCodec>(
    c: C,
    f: V4Footer,
    file: Seq<u8>,
    cols: Seq<usize>,
    indices: Seq<usize>,
    k: int,
    st: BatchSt,
    j: int,
) -> bool {
    match id_of_number(f, file, indices[j] as int, k) {
        None => {
            &&& !st.found[j]
            &&& forall|q: int| 0 <= q < cols.len() ==> (#[trigger] st.bufs[q])[j] is None
        },
        Some(id) => {
            &&& st.found[j]
            &&& st.ids[j] == signed(id) as i64
            &&& forall|q: int|
                0 <= q < cols.len() ==> (#[trigger] st.bufs[q])[j] == value_of_number(
                    c,
                    f,
                    file,
                    cols[q] as int,
                    indices[j] as int,
                    k,
                )
        },
    }
}

pub(crate) proof fn hits_facts(lo: int, hi: int, indices: Seq<usize>, k: int)
    requires
        0 <= k <= indices.len() <= usize::MAX,
        0 <= lo <= hi,
    ensures
        ({
            let h = hits_between(lo, hi, indices, k);
            &&& h.outs.len() == h.rows.len()
            &&& ascend(h.outs)
            &&& forall|t: int|
                0 <= t < h.outs.len() ==> (#[trigger] h.outs[t]) < k && lo
                    <= indices[h.outs[t] as int] < hi && h.rows[t] == indices[h.outs[t] as int] - lo
            &&& forall|j: int|
                0 <= j < k && lo <= #[trigger] indices[j] < hi ==> among(
                    h.outs,
                    h.outs.len() as int,
                    j,
                )
        }),
    decreases k,
{
    if k > 0 {
        hits_facts(lo, hi, indices, k - 1);
        let before = hits_between(lo, hi, indices, k - 1);
        let h = hits_between(lo, hi, indices, k);
        assert forall|j: int| 0 <= j < k && lo <= #[trigger] indices[j] < hi implies among(
            h.outs,
            h.outs.len() as int,
            j,
        ) by {
            if j < k - 1 {
                let t = choose|t: int| 0 <= t < before.outs.len() && #[trigger] before.outs[t] == j;
                assert(h.outs[t] == j);
            } else {
                assert(h.outs[h.outs.len() - 1] == j);
            }
        }
    }
}

proof fn live_hits_facts(
    meta: RowGroupMeta,
    body: Seq<u8>,
    ids: u8,
    deleted: Seq<u8>,
    hits: HitsSeq,
    k: int,
)
    requires
        0 <= k <= hits.rows.len(),
        hits.rows.len() == hits.outs.len(),
        ascend(hits.outs),
    ensures
        ({
            let r = live_hits(meta, body, ids, deleted, hits, k);
            &&& r.rows.len() == r.outs.len()
            &&& r.ids.len() == r.outs.len()
            &&& ascend(r.outs)
            &&& forall|t: int|
                0 <= t < r.outs.len() ==> (exists|u: int|
                    0 <= u < k && #[trigger] hits.outs[u] == #[trigger] r.outs[t] && hits.rows[u]
                        == r.rows[t] && !(meta.deletion_count > 0 && bit(
                        deleted,
                        hits.rows[u] as int,
                    )) && id_at(body, meta.min_id, ids, hits.rows[u] as int) is Some && r.ids[t]
                        == signed(id_at(body, meta.min_id, ids, hits.rows[u] as int)->0) as i64)
            &&& forall|u: int|
                0 <= u < k && !(meta.deletion_count > 0 && bit(deleted, hits.rows[u] as int))
                    && id_at(body, meta.min_id, ids, hits.rows[u] as int) is Some ==> among(
                    r.outs,
                    r.outs.len() as int,
                    #[trigger] hits.outs[u] as int,
                )
        }),
    decreases k,
{
    if k > 0 {
        live_hits_facts(meta, body, ids, deleted, hits, k - 1);
        let before = live_hits(meta, body, ids, deleted, hits, k - 1);
        let r = live_hits(meta, body, ids, deleted, hits, k);
        assert forall|t: int| 0 <= t < r.outs.len() implies (exists|u: int|
            0 <= u < k && #[trigger] hits.outs[u] == #[trigger] r.outs[t] && hits.rows[u]
                == r.rows[t] && !(meta.deletion_count > 0 && bit(deleted, hits.rows[u] as int))
                && id_at(body, meta.min_id, ids, hits.rows[u] as int) is Some && r.ids[t] == signed(
                id_at(body, meta.min_id, ids, hits.rows[u] as int)->0,
            ) as i64) by {
            if t < before.outs.len() {
                assert(r.outs[t] == before.outs[t]);
            } else {
                assert(hits.outs[k - 1] == r.outs[t]);
            }
        }
        assert forall|t: int| 0 <= t < before.outs.len() implies (#[trigger] before.outs[t])
            < hits.outs[k - 1] by {
            let u = choose|u: int|
                0 <= u < k - 1 && #[trigger] hits.outs[u] == before.outs[t] && hits.rows[u]
                    == before.rows[t];
            assert(hits.outs[u] < hits.outs[k - 1]);
        }
        assert forall|u: int|
            0 <= u < k && !(meta.deletion_count > 0 && bit(deleted, hits.rows[u] as int)) && id_at(
                body,
                meta.min_id,
                ids,
                hits.rows[u] as int,
            ) is Some implies among(
            r.outs,
            r.outs.len() as int,
            #[trigger] hits.outs[u] as int,
        ) by {
            if u < k - 1 {
                let t = choose|t: int|
                    0 <= t < before.outs.len() && #[trigger] before.outs[t] == hits.outs[u] as int;
                assert(r.outs[t] == hits.outs[u]);
            } else {
                assert(r.outs[r.outs.len() - 1] == hits.outs[u]);
            }
        }
    }
}

proof fn number_kept<C: ColumnCodec>(
    c: C,
    f: V4Footer,
    file: Seq<u8>,
    cols: Seq<usize>,
    indices: Seq<usize>,
    i: int,
    st: BatchSt,
    r: BatchSt,
    j: int,
)
    requires
        0 <= i,
        number_right(c, f, file, cols, indices, i, st, j),
        same_at(r, st, cols.len() as int, j),
        rows_before(f.row_groups@, i) <= indices[j] < rows_before(f.row_groups@, i + 1) ==> live_id(
            f,
            file,
            i,
            indices[j] - rows_before(f.row_groups@, i),
        ) is None,
    ensures
        number_right(c, f, file, cols, indices, i + 1, r, j),
{
    group_below(f.row_groups@, indices[j] as int, i);
}

#[verifier::spinoff_prover]
proof fn number_found_step<C: ColumnCodec>(
    c: C,
    f: V4Footer,
    file: Seq<u8>,
    cols: Seq<usize>,
    indices: Seq<usize>,
    i: int,
    st: BatchSt,
    r: BatchSt,
    deleted: Seq<u8>,
)
    requires
        0 <= i < f.row_groups@.len(),
        indices.len() <= usize::MAX,
        st_fits(st, cols.len() as int, indices.len() as int),
        forall|j: int|
            0 <= j < indices.len() ==> #[trigger] number_right(
                c,
                f,
                file,
                cols,
                indices,
                i,
                st,
                j,
            ),
        stored_group(f.row_groups@[i], file) is Ok,
        ({
            let meta = f.row_groups@[i];
            let hits = hits_of(f.row_groups@, indices, i);
            let s = stored_group(meta, file)->Ok_0;
            let body = tail(s, 32);
            let found = live_hits(meta, body, s[30], deleted, hits, hits.rows.len() as int);
            &&& window(
                body,
                id_section(meta.row_count as int, s[30]),
                bitmap_len(meta.row_count as int),
            ) == Some(deleted)
            &&& found.rows.len() > 0
            &&& batch_group_columns(
                c,
                f,
                true,
                s[29],
                body,
                i,
                cols,
                found,
                marked(st, found, found.outs.len() as int),
                cols.len() as int,
            ) == Ok::<Option<BatchSt>, ScanError>(Some(r))
        }),
    ensures
        st_fits(r, cols.len() as int, indices.len() as int),
        forall|j: int|
            0 <= j < indices.len() ==> #[trigger] number_right(
                c,
                f,
                file,
                cols,
                indices,
                i + 1,
                r,
                j,
            ),
{
    let n = indices.len() as int;
    let m = cols.len() as int;
    let groups = f.row_groups@;
    let meta = groups[i];
    let lo = rows_before(groups, i);
    let hi = rows_before(groups, i + 1);
    rows_before_monotonic(groups, i, i + 1);
    let hits = hits_of(groups, indices, i);
    hits_facts(lo, hi, indices, n);
    let s = stored_group(meta, file)->Ok_0;
    let body = tail(s, 32);
    let found = live_hits(meta, body, s[30], deleted, hits, hits.rows.len() as int);
    let all = found.outs.len() as int;
    live_hits_facts(meta, body, s[30], deleted, hits, hits.rows.len() as int);
    assert forall|t: int| 0 <= t < all implies (#[trigger] found.outs[t]) < n && lo
        <= indices[found.outs[t] as int] < hi && found.rows[t] == indices[found.outs[t] as int] - lo
        && live_id(f, file, i, found.rows[t] as int) is Some && found.ids[t] == signed(
        live_id(f, file, i, found.rows[t] as int)->0,
    ) as i64 by {
        let u = choose|u: int|
            0 <= u < hits.rows.len() && #[trigger] hits.outs[u] == found.outs[t] && hits.rows[u]
                == found.rows[t] && !(meta.deletion_count > 0 && bit(deleted, hits.rows[u] as int))
                && id_at(body, meta.min_id, s[30], hits.rows[u] as int) is Some && found.ids[t]
                == signed(id_at(body, meta.min_id, s[30], hits.rows[u] as int)->0) as i64;
        assert(hits.outs[u] < n);
    }
    assert forall|q: int, t: int| 0 <= q < m && 0 <= t < all implies (#[trigger] st.bufs[q])[
    #[trigger] found.outs[t] as int] is None by {
        let j = found.outs[t] as int;
        assert(number_right(c, f, file, cols, indices, i, st, j));
        group_below(groups, indices[j] as int, i);
    }
    group_facts(c, f, true, s[29], body, i, cols, found, st, n);
    assert forall|j: int| 0 <= j < n implies #[trigger] number_right(
        c,
        f,
        file,
        cols,
        indices,
        i + 1,
        r,
        j,
    ) by {
        if among(found.outs, all, j) {
            let t = choose|t: int| 0 <= t < all && #[trigger] found.outs[t] == j;
            assert(r.found[found.outs[t] as int]);
            assert(group_holding(groups, indices[j] as int, i + 1) == Some(i));
            assert forall|q: int| 0 <= q < m implies (#[trigger] r.bufs[q])[j] == value_of_number(
                c,
                f,
                file,
                cols[q] as int,
                indices[j] as int,
                i + 1,
            ) by {
                assert(r.bufs[q][found.outs[t] as int] == value_alone(
                    c,
                    f,
                    true,
                    s[29],
                    body,
                    i,
                    cols[q] as int,
                    found.rows[t],
                ));
            }
        } else {
            assert(number_right(c, f, file, cols, indices, i, st, j));
            if lo <= indices[j] < hi {
                let u = choose|u: int| 0 <= u < hits.outs.len() && #[trigger] hits.outs[u] == j;
                assert(hits.rows[u] == indices[j] - lo);
            }
            assert forall|q: int| 0 <= q < m implies (#[trigger] r.bufs[q])[j] == st.bufs[q][j] by {
                assert(r.bufs[q][j] == st.bufs[q][j]);
            }
            assert(same_at(r, st, m, j));
            number_kept(c, f, file, cols, indices, i, st, r, j);
        }
    }
}

#[verifier::spinoff_prover]
proof fn number_step<C: ColumnCodec>(
    c: C,
    f: V4Footer,
    file: Seq<u8>,
    cols: Seq<usize>,
    indices: Seq<usize>,
    i: int,
    st: BatchSt,
    r: BatchSt,
)
    requires
        0 <= i < f.row_groups@.len(),
        indices.len() <= usize::MAX,
        st_fits(st, cols.len() as int, indices.len() as int),
        forall|j: int|
            0 <= j < indices.len() ==> #[trigger] number_right(
                c,
                f,
                file,
                cols,
                indices,
                i,
                st,
                j,
            ),
        numbered_group(c, f, file, cols, hits_of(f.row_groups@, indices, i), i, st) == Ok::<
            Option<BatchSt>,
            ScanError,
        >(Some(r)),
    ensures
        st_fits(r, cols.len() as int, indices.len() as int),
        forall|j: int|
            0 <= j < indices.len() ==> #[trigger] number_right(
                c,
                f,
                file,
                cols,
                indices,
                i + 1,
                r,
                j,
            ),
{
    let n = indices.len() as int;
    let groups = f.row_groups@;
    let meta = groups[i];
    let lo = rows_before(groups, i);
    let hi = rows_before(groups, i + 1);
    rows_before_monotonic(groups, i, i + 1);
    let hits = hits_of(groups, indices, i);
    hits_facts(lo, hi, indices, n);
    if hits.rows.len() == 0 {
        assert forall|j: int| 0 <= j < n implies #[trigger] number_right(
            c,
            f,
            file,
            cols,
            indices,
            i + 1,
            r,
            j,
        ) by {
            assert(number_right(c, f, file, cols, indices, i, st, j));
            number_kept(c, f, file, cols, indices, i, st, r, j);
        }
    } else {
        let s = stored_group(meta, file)->Ok_0;
        let body = tail(s, 32);
        let deleted = window(
            body,
            id_section(meta.row_count as int, s[30]),
            bitmap_len(meta.row_count as int),
        )->0;
        let found = live_hits(meta, body, s[30], deleted, hits, hits.rows.len() as int);
        if found.rows.len() > 0 {
            number_found_step(c, f, file, cols, indices, i, st, r, deleted);
        } else {
            live_hits_facts(meta, body, s[30], deleted, hits, hits.rows.len() as int);
            assert forall|j: int| 0 <= j < n implies #[trigger] number_right(
                c,
                f,
                file,
                cols,
                indices,
                i + 1,
                r,
                j,
            ) by {
                assert(number_right(c, f, file, cols, indices, i, st, j));
                if lo <= indices[j] < hi {
                    let u = choose|u: int| 0 <= u < hits.outs.len() && #[trigger] hits.outs[u] == j;
                    assert(hits.rows[u] == indices[j] - lo);
                }
                number_kept(c, f, file, cols, indices, i, st, r, j);
            }
        }
    }
}

#[verifier::spinoff_prover]
proof fn numbered_right<C: ColumnCodec>(
    c: C,
    f: V4Footer,
    file: Seq<u8>,
    cols: Seq<usize>,
    indices: Seq<usize>,
    k: int,
    st: BatchSt,
)
    requires
        0 <= k <= f.row_groups@.len(),
        indices.len() <= usize::MAX,
        numbered_upto(
            c,
            f,
            file,
            cols,
            all_hits(f.row_groups@, indices),
            indices.len() as int,
            k,
        ) == Ok::<Option<BatchSt>, ScanError>(Some(st)),
    ensures
        st_fits(st, cols.len() as int, indices.len() as int),
        forall|j: int|
            0 <= j < indices.len() ==> #[trigger] number_right(
                c,
                f,
                file,
                cols,
                indices,
                k,
                st,
                j,
            ),
    decreases k,
{
    if k > 0 {
        let before = numbered_upto(
            c,
            f,
            file,
            cols,
            all_hits(f.row_groups@, indices),
            indices.len() as int,
            k - 1,
        )->Ok_0->Some_0;
        numbered_right(c, f, file, cols, indices, k - 1, before);
        let i = k - 1;
        number_step(c, f, file, cols, indices, i, before, st);
        assert forall|j: int| 0 <= j < indices.len() implies #[trigger] number_right(
            c,
            f,
            file,
            cols,
            indices,
            k,
            st,
            j,
        ) by {
            assert(number_right(c, f, file, cols, indices, i + 1, st, j));
        }
    } else {
        assert(st == batch_start(cols.len() as int, indices.len() as int));
        assert forall|j: int| 0 <= j < indices.len() implies #[trigger] number_right(
            c,
            f,
            file,
            cols,
            indices,
            k,
            st,
            j,
        ) by {
            assert(!st.found[j]);
        }
    }
}

/// The identifiers of the live ones of the first `k` rows that are asked for.
pub open spec fn numbered_ids(f: V4Footer, file: Seq<u8>, indices: Seq<usize>, k: int) -> Seq<i64>
    decreases k,
{
    if k <= 0 {
        Seq::empty()
    } else {
        let before = numbered_ids(f, file, indices, k - 1);
        match id_of_number(f, file, indices[k - 1] as int, f.row_groups@.len() as int) {
            None => before,
            Some(id) => before.push(signed(id) as i64),
        }
    }
}

/// The values of column `col` in the live ones of the first `k` rows that are asked for.
pub open spec fn numbered_values<C: ColumnCodec>(
    c: C,
    f: V4Footer,
    file: Seq<u8>,
    col: int,
    indices: Seq<usize>,
    k: int,
) -> Seq<Option<CellSeq>>
    decreases k,
{
    if k <= 0 {
        Seq::empty()
    } else {
        let before = numbered_values(c, f, file, col, indices, k - 1);
        let index = indices[k - 1] as int;
        let all = f.row_groups@.len() as int;
        match id_of_number(f, file, index, all) {
            None => before,
            Some(_) => before.push(value_of_number(c, f, file, col, index, all)),
        }
    }
}

#[verifier::spinoff_prover]
proof fn kept_numbers<C: ColumnCodec>(
    c: C,
    f: V4Footer,
    file: Seq<u8>,
    cols: Seq<usize>,
    indices: Seq<usize>,
    st: BatchSt,
    k: int,
)
    requires
        0 <= k <= indices.len(),
        forall|j: int|
            0 <= j < indices.len() ==> #[trigger] number_right(
                c,
                f,
                file,
                cols,
                indices,
                f.row_groups@.len() as int,
                st,
                j,
            ),
    ensures
        kept(st.found, st.ids, k) == numbered_ids(f, file, indices, k),
        forall|q: int|
            0 <= q < cols.len() ==> kept(st.found, #[trigger] st.bufs[q], k) == numbered_values(
                c,
                f,
                file,
                cols[q] as int,
                indices,
                k,
            ),
    decreases k,
{
    if k > 0 {
        kept_numbers(c, f, file, cols, indices, st, k - 1);
        assert(number_right(c, f, file, cols, indices, f.row_groups@.len() as int, st, k - 1));
        assert forall|q: int| 0 <= q < cols.len() implies kept(st.found, #[trigger] st.bufs[q], k)
            == numbered_values(c, f, file, cols[q] as int, indices, k) by {
            assert(kept(st.found, st.bufs[q], k - 1) == numbered_values(
                c,
                f,
                file,
                cols[q] as int,
                indices,
                k - 1,
            ));
        }
    }
}

impl<C: ColumnCodec> OnDemandStorage<C> {
    /// Rows that are asked for by number come back in the order in which they are asked for, the live
    /// ones and no others, each with the values that are read of it alone, and behind its identifier
    /// where that is asked for.
    pub proof fn law_numbered_rows(
        self,
        indices: Seq<usize>,
        names: Option<Seq<Seq<char>>>,
        b: BatchColumnsSeq,
        f: V4Footer,
        file: Vec<u8>,
    )
        requires
            0 < indices.len() <= usize::MAX,
            self.footer == Some(f),
            self.file == Some(file),
            self.numbered_rows(indices, names) == Ok::<Option<BatchColumnsSeq>, ScanError>(Some(b)),
        ensures
            ({
                let n = indices.len() as int;
                let cols = needed_columns(
                    needed_of(f.schema, names),
                    f.schema.columns@.len() as int,
                );
                let d: int = if names_have(names, "_id"@) {
                    1
                } else {
                    0
                };
                let live = numbered_ids(f, file@, indices, n);
                &&& b.row_count == live.len()
                &&& b.row_count == 0 ==> b.columns.len() == 0
                &&& b.row_count > 0 ==> {
                    &&& b.columns.len() == cols.len() + d
                    &&& d == 1 ==> b.columns[0] == ("_id"@, BatchColumnSeq::I64(some_ids(live)))
                    &&& forall|q: int|
                        0 <= q < cols.len() ==> b.columns[q + d] == (
                            f.schema.columns@[#[trigger] cols[q] as int].0@,
                            typed_column(
                                batch_slot(f.schema.kind(cols[q] as int)),
                                numbered_values(
                                    self.codec,
                                    f,
                                    file@,
                                    cols[q] as int,
                                    indices,
                                    n,
                                ),
                            ),
                        )
                }
            }),
    {
        let n = indices.len() as int;
        let c = self.codec;
        let cols = needed_columns(needed_of(f.schema, names), f.schema.columns@.len() as int);
        let m = cols.len() as int;
        let d: int = if names_have(names, "_id"@) {
            1
        } else {
            0
        };
        let hits = all_hits(f.row_groups@, indices);
        let st = numbered_upto(c, f, file@, cols, hits, n, hits.len() as int)->Ok_0->Some_0;
        numbered_right(c, f, file@, cols, indices, hits.len() as int, st);
        kept_numbers(c, f, file@, cols, indices, st, n);
        kept_columns_are(f.schema, cols, st, m);
        assert forall|q: int| 0 <= q < m && b.row_count > 0 implies b.columns[q + d] == (
            f.schema.columns@[#[trigger] cols[q] as int].0@,
            typed_column(
                batch_slot(f.schema.kind(cols[q] as int)),
                numbered_values(c, f, file@, cols[q] as int, indices, n),
            ),
        ) by {
            assert(kept(st.found, st.bufs[q], n) == numbered_values(
                c,
                f,
                file@,
                cols[q] as int,
                indices,
                n,
            ));
            assert(b.columns[q + d] == kept_columns(f.schema, cols, st, m)[q]);
        }
    }
}

} // verus!
