//! The rows of a batch are the live rows of the store from an offset on.

use vstd::prelude::*;

use crate::batch::{
    body_ids, cut_of, cut_rows, gather_group, gather_placed, gather_upto, gather_walked, id_words,
    live_before, live_before_bound, placed_ids, span, BatchSeq, Cut, GatherSeq,
};
use crate::bytes::{bitmap_len, signed, u64_le};
use crate::codec::ColumnCodec;
use crate::fts::{live_rows, live_rows_bound};
use crate::group::{group_of, id_at, id_section, stored_group, tail, window};
use crate::like_row_laws::row_has_signed;
use crate::model::{rows_before, ScanError, V4Footer, RG_IDS_IMPLICIT_CONTIGUOUS};
use crate::numeric::min2;
use crate::range_laws::{lies_in, row_has_id};
use crate::scan_laws::group_bounds;
use crate::storage::OnDemandStorage;

verus! {

/// The live rows of row group `i`, counted from its first row.
pub open spec fn group_live<C: ColumnCodec>(c: C, f: V4Footer, file: Seq<u8>, i: int) -> Seq<usize> {
    let meta = f.row_groups@[i];
    let rows = meta.row_count as int;
    let g = group_of(c, meta, file)->Ok_0;
    if meta.deletion_count > 0 {
        live_rows(window(g.body, id_section(rows, g.ids), bitmap_len(rows))->0, rows)
    } else {
        span(0, rows)
    }
}

/// The live rows of the first `k` row groups, counted from the first row of the store.
pub open spec fn all_live<C: ColumnCodec>(c: C, f: V4Footer, file: Seq<u8>, k: int) -> Seq<usize>
    decreases k,
{
    if k <= 0 {
        Seq::empty()
    } else {
        let here = group_live(c, f, file, k - 1);
        all_live(c, f, file, k - 1) + Seq::new(
            here.len(),
            |j: int| (rows_before(f.row_groups@, k - 1) + here[j]) as usize,
        )
    }
}

/// Whether row group `i` is stored as it should be: with a deletion bitmap that leaves as many rows
/// as are said to be live, and an identifier for each row.
pub open spec fn sound_live<C: ColumnCodec>(c: C, f: V4Footer, file: Seq<u8>, i: int) -> bool {
    let meta = f.row_groups@[i];
    let rows = meta.row_count as int;
    &&& group_of(c, meta, file) matches Ok(g) && {
        &&& window(g.body, id_section(rows, g.ids), bitmap_len(rows)) is Some
        &&& forall|r: int| 0 <= r < rows ==> #[trigger] id_at(g.body, meta.min_id, g.ids, r) is Some
    }
    &&& group_live(c, f, file, i).len() == meta.live()
}

/// Live rows are rows of their row group.
pub(crate) proof fn group_live_bound<C: ColumnCodec>(c: C, f: V4Footer, file: Seq<u8>, i: int)
    ensures
        forall|j: int|
            0 <= j < group_live(c, f, file, i).len() ==> #[trigger] group_live(c, f, file, i)[j]
                < f.row_groups@[i].row_count,
{
    let meta = f.row_groups@[i];
    let rows = meta.row_count as int;
    let g = group_of(c, meta, file)->Ok_0;
    live_rows_bound(window(g.body, id_section(rows, g.ids), bitmap_len(rows))->0, rows);
}

/// A cut takes live rows one after the other.
pub(crate) proof fn cut_is_part<C: ColumnCodec>(c: C, f: V4Footer, file: Seq<u8>, i: int, cut: Cut)
    requires
        sound_live(c, f, file, i),
        0 <= cut.skip,
        0 <= cut.take,
        cut.skip + cut.take <= f.row_groups@[i].live(),
    ensures
        ({
            let meta = f.row_groups@[i];
            let rows = meta.row_count as int;
            let g = group_of(c, meta, file)->Ok_0;
            let d = window(g.body, id_section(rows, g.ids), bitmap_len(rows))->0;
            cut_rows(meta, d, cut) == group_live(c, f, file, i).subrange(
                cut.skip,
                cut.skip + cut.take,
            )
        }),
{
    let meta = f.row_groups@[i];
    let rows = meta.row_count as int;
    let g = group_of(c, meta, file)->Ok_0;
    let d = window(g.body, id_section(rows, g.ids), bitmap_len(rows))->0;
    assert(cut_rows(meta, d, cut) =~= group_live(c, f, file, i).subrange(
        cut.skip,
        cut.skip + cut.take,
    ));
}

/// The identifiers that are read from a body are those of the rows.
proof fn body_ids_facts(body: Seq<u8>, min_id: u64, ids: u8, rows: Seq<usize>, acc: Seq<i64>)
    ensures
        body_ids(body, min_id, ids, rows, acc) matches Some(v) ==> {
            &&& v.len() == acc.len() + rows.len()
            &&& forall|k: int| 0 <= k < acc.len() ==> #[trigger] v[k] == acc[k]
            &&& forall|k: int|
                0 <= k < rows.len() ==> (id_at(body, min_id, ids, #[trigger] rows[k] as int) matches Some(
                    id,
                ) && v[acc.len() + k] == signed(id))
        },
    decreases rows.len(),
{
    if rows.len() > 0 {
        let d = rows.drop_last();
        body_ids_facts(body, min_id, ids, d, acc);
        if let Some(v) = body_ids(body, min_id, ids, rows, acc) {
            let before = body_ids(body, min_id, ids, d, acc)->0;
            assert forall|k: int| 0 <= k < rows.len() implies (id_at(
                body,
                min_id,
                ids,
                #[trigger] rows[k] as int,
            ) matches Some(id) && v[acc.len() + k] == signed(id)) by {
                if k < d.len() {
                    assert(d[k] == rows[k]);
                    assert(v[acc.len() + k] == before[acc.len() + k]);
                }
            }
        }
    }
}

/// Identifiers `from` the start of a cut on are those of the rows that it takes.
pub open spec fn ids_of_cut<C: ColumnCodec>(
    c: C,
    f: V4Footer,
    file: Seq<u8>,
    i: int,
    cut: Cut,
    was: Seq<i64>,
    now: Seq<i64>,
) -> bool {
    let base = rows_before(f.row_groups@, i);
    &&& now.len() == was.len() + cut.take
    &&& forall|k: int| 0 <= k < was.len() ==> #[trigger] now[k] == was[k]
    &&& forall|k: int|
        was.len() <= k < now.len() ==> row_has_signed(
            c,
            f,
            file,
            (base + group_live(c, f, file, i)[cut.skip + k - was.len()]) as usize,
            #[trigger] now[k],
        )
}

proof fn walked_ids_of_cut<C: ColumnCodec>(
    c: C,
    f: V4Footer,
    file: Seq<u8>,
    cols: Seq<usize>,
    i: int,
    cut: Cut,
    st: GatherSeq,
)
    requires
        f.wf(),
        0 <= i < f.row_groups@.len(),
        sound_live(c, f, file, i),
        0 <= cut.skip,
        0 <= cut.take,
        cut.skip + cut.take <= f.row_groups@[i].live(),
        gather_walked(c, f, group_of(c, f.row_groups@[i], file)->Ok_0, cols, i, cut, st) is Ok,
    ensures
        ids_of_cut(
            c,
            f,
            file,
            i,
            cut,
            st.ids,
            gather_walked(
                c,
                f,
                group_of(c, f.row_groups@[i], file)->Ok_0,
                cols,
                i,
                cut,
                st,
            )->Ok_0.ids,
        ),
{
    let meta = f.row_groups@[i];
    let rows = meta.row_count as int;
    let base = rows_before(f.row_groups@, i);
    let g = group_of(c, meta, file)->Ok_0;
    let d = window(g.body, id_section(rows, g.ids), bitmap_len(rows))->0;
    let places = cut_rows(meta, d, cut);
    let live = group_live(c, f, file, i);
    group_bounds(f, i);
    group_live_bound(c, f, file, i);
    cut_is_part(c, f, file, i, cut);
    body_ids_facts(g.body, meta.min_id, g.ids, places, st.ids);
    let now = gather_walked(c, f, g, cols, i, cut, st)->Ok_0.ids;
    assert forall|k: int| st.ids.len() <= k < now.len() implies row_has_signed(
        c,
        f,
        file,
        (base + live[cut.skip + k - st.ids.len()]) as usize,
        #[trigger] now[k],
    ) by {
        let m = k - st.ids.len();
        assert(places[m] == live[cut.skip + m]);
        assert(live[cut.skip + m] < rows);
        let row = (base + live[cut.skip + m]) as usize;
        let id = id_at(g.body, meta.min_id, g.ids, places[m] as int)->0;
        assert(now[st.ids.len() + m] == signed(id));
        assert(lies_in(f, i, row as int));
        assert(row_has_id(c, f, file, row, id as u64));
    }
}

proof fn placed_ids_of_cut<C: ColumnCodec>(
    c: C,
    f: V4Footer,
    file: Seq<u8>,
    cols: Seq<usize>,
    i: int,
    cut: Cut,
    st: GatherSeq,
)
    requires
        f.wf(),
        0 <= i < f.row_groups@.len(),
        sound_live(c, f, file, i),
        f.row_groups@[i].deletion_count == 0,
        stored_group(f.row_groups@[i], file) matches Ok(s) && s[28]
            == crate::model::RG_COMPRESS_NONE,
        0 <= cut.skip,
        0 <= cut.take,
        cut.skip + cut.take <= f.row_groups@[i].live(),
        gather_placed(
            c,
            f,
            file,
            stored_group(f.row_groups@[i], file)->Ok_0[30],
            cols,
            i,
            cut,
            st,
        ) is Ok,
    ensures
        ids_of_cut(
            c,
            f,
            file,
            i,
            cut,
            st.ids,
            gather_placed(
                c,
                f,
                file,
                stored_group(f.row_groups@[i], file)->Ok_0[30],
                cols,
                i,
                cut,
                st,
            )->Ok_0.ids,
        ),
{
    let meta = f.row_groups@[i];
    let rows = meta.row_count as int;
    let base = rows_before(f.row_groups@, i);
    let s = stored_group(meta, file)->Ok_0;
    let g = group_of(c, meta, file)->Ok_0;
    let body = tail(s, 32);
    assert(g.body == body && g.ids == s[30]);
    let live = group_live(c, f, file, i);
    group_bounds(f, i);
    let now = gather_placed(c, f, file, s[30], cols, i, cut, st)->Ok_0.ids;
    assert(placed_ids(meta, file, s[30], cut, st.ids) == Some(now));
    assert(now.len() == st.ids.len() + cut.take) by {
        if s[30] != RG_IDS_IMPLICIT_CONTIGUOUS {
            assert(id_section(rows, g.ids) <= g.body.len());
        }
    }
    assert forall|k: int| st.ids.len() <= k < now.len() implies row_has_signed(
        c,
        f,
        file,
        (base + live[cut.skip + k - st.ids.len()]) as usize,
        #[trigger] now[k],
    ) by {
        let m = k - st.ids.len();
        let r = cut.skip + m;
        assert(live[r] == r);
        let row = (base + r) as usize;
        assert(id_at(body, meta.min_id, s[30], r) is Some);
        let id = id_at(body, meta.min_id, s[30], r)->0;
        if s[30] != RG_IDS_IMPLICIT_CONTIGUOUS {
            let w = window(file, meta.offset + 32 + cut.skip * 8, cut.take * 8)->0;
            assert(now == st.ids + id_words(w, cut.take));
            assert(u64_le(w, m * 8) == u64_le(body, r * 8));
        }
        assert(lies_in(f, i, row as int));
        assert(row_has_id(c, f, file, row, id as u64));
    }
}

/// There are as many live rows as are said to be.
pub(crate) proof fn all_live_len<C: ColumnCodec>(c: C, f: V4Footer, file: Seq<u8>, k: int)
    requires
        0 <= k <= f.row_groups@.len(),
        forall|i: int|
            0 <= i < k && f.row_groups@[i].row_count > 0 ==> #[trigger] sound_live(c, f, file, i),
    ensures
        all_live(c, f, file, k).len() == live_before(f.row_groups@, k),
    decreases k,
{
    if k > 0 {
        all_live_len(c, f, file, k - 1);
        if f.row_groups@[k - 1].row_count > 0 {
            assert(sound_live(c, f, file, k - 1));
        }
    }
}

/// What has been gathered are the live rows from `start` on.
pub open spec fn gathered_rows<C: ColumnCodec>(
    c: C,
    f: V4Footer,
    file: Seq<u8>,
    start: int,
    limit: int,
    k: int,
    st: GatherSeq,
) -> bool {
    let live = live_before(f.row_groups@, k);
    &&& st.taken == min2(
        limit,
        if live > start {
            live - start
        } else {
            0
        },
    )
    &&& st.taken < limit ==> st.seen == live
    &&& st.ids.len() == st.taken
    &&& forall|j: int|
        0 <= j < st.taken ==> row_has_signed(
            c,
            f,
            file,
            all_live(c, f, file, k)[start + j],
            #[trigger] st.ids[j],
        )
}

/// Gathering takes the live rows from `start` on, at most `limit` of them, in order.
pub proof fn law_gathered_rows<C: ColumnCodec>(
    c: C,
    f: V4Footer,
    file: Seq<u8>,
    cols: Seq<usize>,
    start: int,
    limit: int,
    k: int,
)
    requires
        f.wf(),
        0 <= start,
        0 <= limit,
        0 <= k <= f.row_groups@.len(),
        forall|i: int|
            0 <= i < k && f.row_groups@[i].row_count > 0 ==> #[trigger] sound_live(c, f, file, i),
        gather_upto(c, f, file, cols, start, limit, k) is Ok,
    ensures
        gathered_rows(
            c,
            f,
            file,
            start,
            limit,
            k,
            gather_upto(c, f, file, cols, start, limit, k)->Ok_0,
        ),
    decreases k,
{
    if k > 0 {
        let i = k - 1;
        law_gathered_rows(c, f, file, cols, start, limit, i);
        all_live_len(c, f, file, i);
        all_live_len(c, f, file, k);
        live_before_bound(f.row_groups@, i, k);
        let st = gather_upto(c, f, file, cols, start, limit, i)->Ok_0;
        let now = gather_upto(c, f, file, cols, start, limit, k)->Ok_0;
        let meta = f.row_groups@[i];
        let live = meta.live();
        let cut = cut_of(live, start, limit, st.taken, st.seen);
        let before = all_live(c, f, file, i);
        let all = all_live(c, f, file, k);
        assert(gather_group(c, f, file, cols, start, limit, i, st) == Ok::<GatherSeq, ScanError>(
            now,
        ));
        let goes = !(st.taken >= limit || meta.row_count == 0) && !(st.seen + live <= start
            || cut.take == 0);
        if goes {
            assert(sound_live(c, f, file, i));
            let s = stored_group(meta, file)->Ok_0;
            if s[28] == crate::model::RG_COMPRESS_NONE && meta.deletion_count == 0 && s[29] >= 1
                && f.rcix(i, 0) is Some {
                placed_ids_of_cut(c, f, file, cols, i, cut, st);
            } else {
                walked_ids_of_cut(c, f, file, cols, i, cut, st);
            }
            assert(ids_of_cut(c, f, file, i, cut, st.ids, now.ids));
        }
        assert forall|j: int| 0 <= j < now.taken implies row_has_signed(
            c,
            f,
            file,
            all[start + j],
            #[trigger] now.ids[j],
        ) by {
            if j < st.taken {
                assert(now.ids[j] == st.ids[j]);
                assert(all[start + j] == before[start + j]);
            } else {
                let here = group_live(c, f, file, i);
                assert(cut.skip + j - st.taken == start + j - before.len());
                assert(all[start + j] == (rows_before(f.row_groups@, i) + here[start + j
                    - before.len()]) as usize);
            }
        }
    }
}

impl<C: ColumnCodec> OnDemandStorage<C> {
    /// Whether every row group with rows is stored as it should be.
    pub open spec fn sound_groups(self) -> bool {
        self.footer matches Some(f) ==> self.file matches Some(file) ==> forall|i: int|
            0 <= i < f.row_groups@.len() && f.row_groups@[i].row_count > 0
                ==> #[trigger] sound_live(self.codec, f, file@, i)
    }

    /// Row `j` of the batch of a range is the live row `offset + j` of the store: the batch has its
    /// identifier there. It has as many rows as there are live ones behind the offset, up to the
    /// limit.
    pub proof fn law_rows_of_batch(
        self,
        names: Option<Seq<Seq<char>>>,
        with_id: bool,
        offset: int,
        limit: Option<usize>,
        dict: bool,
    )
        requires
            self.wf(),
            self.sound_groups(),
            0 <= offset,
        ensures
            self.batch_range(names, with_id, offset, limit, dict) matches Ok(
                Some(BatchSeq::Rows { ids, .. }),
            ) ==> {
                let f = self.footer->0;
                let live = all_live(self.codec, f, self.file->0@, f.row_groups@.len() as int);
                let rest = if live.len() > offset {
                    live.len() - offset
                } else {
                    0
                };
                &&& ids.len() == (match limit {
                    None => rest,
                    Some(n) => min2(n as int, rest),
                })
                &&& forall|j: int|
                    0 <= j < ids.len() ==> row_has_signed(
                        self.codec,
                        f,
                        self.file->0@,
                        live[offset + j],
                        #[trigger] ids[j],
                    )
            },
    {
        if let Ok(Some(BatchSeq::Rows { ids, .. })) = self.batch_range(
            names,
            with_id,
            offset,
            limit,
            dict,
        ) {
            let f = self.footer->0;
            let file = self.file->0@;
            let n = f.row_groups@.len() as int;
            let total = live_before(f.row_groups@, n);
            let start = min2(offset, total);
            let most = match limit {
                None => total - start,
                Some(n) => min2(n as int, total - start),
            };
            live_before_bound(f.row_groups@, n, n);
            all_live_len(self.codec, f, file, n);
            law_gathered_rows(
                self.codec,
                f,
                file,
                crate::batch::batch_columns(f.schema, names),
                start,
                most,
                n,
            );
        }
    }
}

} // verus!
