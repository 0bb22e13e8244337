//! Identifiers that are read are those of the rows.

use vstd::prelude::*;

use crate::bytes::{bitmap_len, u64_le};
use crate::codec::ColumnCodec;
use crate::group::{group_of, id_at, id_section, stored_group, tail};
use crate::id_laws::{law_there_is_found, words_ascend};
use crate::ids::{group_from, ids_upto, load, row_of_id, top_id};
use crate::meaning::{
    flag, held, holder, ids_len, marks_len, place_in, whole_group,
};
use crate::model::{
    rows_before, RowGroupMeta, ScanError, V4Footer, RG_COMPRESS_NONE, RG_IDS_IMPLICIT_CONTIGUOUS,
};
use crate::numeric::min2;
use crate::scan_laws::group_bounds;
use crate::storage::OnDemandStorage;

verus! {

/// The identifier of row `r` of row group `i`: counted up from the first one of the row group, or the
/// word of the row at the start of the body.
pub open spec fn identifier<C: ColumnCodec>(c: C, f: V4Footer, file: Seq<u8>, i: int, r: int) -> int {
    let g = group_of(c, f.row_groups@[i], file)->Ok_0;
    if g.ids == RG_IDS_IMPLICIT_CONTIGUOUS {
        f.row_groups@[i].min_id + r
    } else {
        u64_le(g.body, 8 * r) as int
    }
}

/// Whether row group `i` has an identifier for each row and a deletion bitmap.
pub open spec fn ids_there<C: ColumnCodec>(c: C, f: V4Footer, file: Seq<u8>, i: int) -> bool {
    let meta = f.row_groups@[i];
    &&& whole_group(c, f, file, i)
    &&& group_of(c, meta, file)->Ok_0.ids == RG_IDS_IMPLICIT_CONTIGUOUS ==> meta.min_id
        + meta.row_count <= u64::MAX + 1
}

proof fn ids_of_group<C: ColumnCodec>(c: C, f: V4Footer, file: Seq<u8>, i: int, k: int)
    requires
        ids_there(c, f, file, i),
        0 <= k <= f.row_groups@[i].row_count,
    ensures
        ({
            let g = group_of(c, f.row_groups@[i], file)->Ok_0;
            let (s, ok) = ids_upto(g.body, f.row_groups@[i].min_id, g.ids, k);
            &&& ok
            &&& s.len() == k
            &&& forall|r: int| 0 <= r < k ==> #[trigger] s[r] == identifier(c, f, file, i, r)
        }),
    decreases k,
{
    if k > 0 {
        ids_of_group(c, f, file, i, k - 1);
        let g = group_of(c, f.row_groups@[i], file)->Ok_0;
        assert(id_at(g.body, f.row_groups@[i].min_id, g.ids, k - 1) == Some(
            identifier(c, f, file, i, k - 1),
        ));
    }
}

proof fn ids_loaded<C: ColumnCodec>(c: C, f: V4Footer, file: Seq<u8>, k: int)
    requires
        f.wf(),
        0 <= k <= f.row_groups@.len(),
        forall|i: int|
            0 <= i < k && f.row_groups@[i].row_count > 0 ==> #[trigger] ids_there(c, f, file, i),
    ensures
        ({
            let l = load(c, f, file, k);
            &&& l.error is None
            &&& l.ids.len() == rows_before(f.row_groups@, k)
            &&& forall|i: int, r: int|
                0 <= i < k && 0 <= r < f.row_groups@[i].row_count ==> l.ids[rows_before(
                    f.row_groups@,
                    i,
                ) + r] == #[trigger] identifier(c, f, file, i, r)
        }),
    decreases k,
{
    if k > 0 {
        ids_loaded(c, f, file, k - 1);
        group_bounds(f, k - 1);
        let meta = f.row_groups@[k - 1];
        let rows = meta.row_count as int;
        let before = load(c, f, file, k - 1);
        let now = load(c, f, file, k);
        if rows > 0 {
            assert(ids_there(c, f, file, k - 1));
            ids_of_group(c, f, file, k - 1, rows);
            assert(bitmap_len(rows) == marks_len(rows));
            let g = group_of(c, meta, file)->Ok_0;
            let (s, ok) = ids_upto(g.body, meta.min_id, g.ids, rows);
            assert(now.ids == before.ids + s);
            assert forall|i: int, r: int|
                0 <= i < k && 0 <= r < f.row_groups@[i].row_count implies now.ids[rows_before(
                f.row_groups@,
                i,
            ) + r] == #[trigger] identifier(c, f, file, i, r) by {
                group_bounds(f, i);
                if i < k - 1 {
                    crate::model::rows_before_monotonic(f.row_groups@, i + 1, k - 1);
                    assert(before.ids[rows_before(f.row_groups@, i) + r] == identifier(
                        c,
                        f,
                        file,
                        i,
                        r,
                    ));
                } else {
                    assert(s[r] == identifier(c, f, file, i, r));
                }
            }
        }
    }
}

impl<C: ColumnCodec> OnDemandStorage<C> {
    /// The identifier of a row of the table.
    pub open spec fn id_of_row(self, row: int) -> int {
        let f = self.footer->0;
        identifier(self.codec, f, self.file->0@, holder(f, row), place_in(f, row))
    }

    /// Whether identifiers are still to be loaded, and every row group has them.
    pub open spec fn ids_to_load(self) -> bool {
        &&& self.needs_ids()
        &&& self.footer matches Some(f) && self.file matches Some(file) && forall|i: int|
            0 <= i < f.row_groups@.len() && f.row_groups@[i].row_count > 0 ==> #[trigger] ids_there(
                self.codec,
                f,
                file@,
                i,
            )
    }

    /// Loading on demand gives each row of the table, deleted or not, its identifier, in the order of the
    /// rows. It does not fail unless an identifier is the largest number there is.
    pub proof fn law_ids_of_rows(self)
        requires
            self.wf(),
            self.ids_to_load(),
            forall|row: int|
                0 <= row < self.footer->0.total_rows() ==> #[trigger] self.id_of_row(row)
                    < u64::MAX,
        ensures
            self.demand_result() is Ok,
            self.ids_on_demand().len() == self.footer->0.total_rows(),
            forall|row: int|
                0 <= row < self.footer->0.total_rows() ==> #[trigger] self.ids_on_demand()[row]
                    == self.id_of_row(row),
    {
        let f = self.footer->0;
        let n = f.row_groups@.len() as int;
        ids_loaded(self.codec, f, self.file->0@, n);
        let ids = load(self.codec, f, self.file->0@, n).ids;
        assert forall|row: int| 0 <= row < f.total_rows() implies #[trigger] ids[row]
            == self.id_of_row(row) && ids[row] < u64::MAX by {
            held(f, row);
            let x = identifier(self.codec, f, self.file->0@, holder(f, row), place_in(f, row));
            assert(self.id_of_row(row) < u64::MAX);
        }
        top_is_one(ids);
    }

    /// Reading the identifiers of some rows gives, for each of them, the identifier of the row as a
    /// signed number, and 0 for a row that the table does not have.
    pub proof fn law_ids_of_picked_rows(self, rows: Seq<usize>)
        requires
            self.wf(),
            self.ids_to_load(),
            forall|row: int|
                0 <= row < self.footer->0.total_rows() ==> #[trigger] self.id_of_row(row)
                    < u64::MAX,
        ensures
            self.ids_read(rows) matches Ok(v) && v.len() == rows.len() && forall|j: int|
                0 <= j < rows.len() ==> #[trigger] v[j] == (if rows[j]
                    < self.footer->0.total_rows() {
                    if self.id_of_row(rows[j] as int) <= i64::MAX {
                        self.id_of_row(rows[j] as int)
                    } else {
                        self.id_of_row(rows[j] as int) - 0x1_0000_0000_0000_0000
                    }
                } else {
                    0
                }),
    {
        self.law_ids_of_rows();
        let v = self.ids_read(rows)->Ok_0;
        assert forall|j: int| 0 <= j < rows.len() implies #[trigger] v[j] == (if rows[j]
            < self.footer->0.total_rows() {
            if self.id_of_row(rows[j] as int) <= i64::MAX {
                self.id_of_row(rows[j] as int)
            } else {
                self.id_of_row(rows[j] as int) - 0x1_0000_0000_0000_0000
            }
        } else {
            0
        }) by {
            if rows[j] < self.footer->0.total_rows() {
                assert(self.ids_on_demand()[rows[j] as int] == self.id_of_row(rows[j] as int));
            }
        }
    }

    /// Reading the identifiers of a range of rows gives those of the rows that are there, one for each
    /// and in their order: first the rows of the table, then the appended ones.
    pub proof fn law_ids_of_range_of_rows(self, start: usize, count: Option<usize>, appended: Seq<u64>)
        requires
            self.wf(),
            self.ids_to_load(),
            forall|row: int|
                0 <= row < self.footer->0.total_rows() ==> #[trigger] self.id_of_row(row)
                    < u64::MAX,
            match self.delta_ids {
                None => appended.len() == 0,
                Some(d) => appended == d@,
            },
            appended.len() == self.delta_rows,
        ensures
            ({
                let n = self.footer->0.total_rows();
                let total = n + appended.len();
                let len = if start >= total {
                    0
                } else {
                    match count {
                        Some(m) if m < total - start => m as int,
                        _ => total - start,
                    }
                };
                let v = self.id_range(start, count);
                &&& v.len() == len
                &&& forall|j: int|
                    0 <= j < len ==> #[trigger] v[j] == (if start + j < n {
                        self.id_of_row(start + j)
                    } else {
                        appended[start + j - n] as int
                    })
            }),
    {
        self.law_ids_of_rows();
        let n = self.footer->0.total_rows();
        let ids = self.ids_on_demand();
        let total = n + appended.len();
        let v = self.id_range(start, count);
        let from = min2(start as int, total);
        let len = match count {
            None => total - from,
            Some(m) => min2(m as int, total - from),
        };
        assert(v == self.ids_between(ids, from, from + len));
        assert forall|j: int| 0 <= j < len implies #[trigger] v[j] == (if start + j < n {
            self.id_of_row(start + j)
        } else {
            appended[start + j - n] as int
        }) by {
            if start + j < n {
                assert(ids[start + j] == self.id_of_row(start + j));
            }
        }
    }

    /// An identifier of a row is told to be live where the mark of the row in the deletion bitmap is not
    /// set. The row group is the only one whose identifiers can hold it, is not compressed, and its
    /// identifiers ascend; the identifier is no further from the first one than the row group has rows.
    pub proof fn law_id_is_live(self, id: u64, i: int, r: int)
        requires
            self.footer matches Some(f) && self.file matches Some(file) && {
                let meta = f.row_groups@[i];
                let g = group_of(self.codec, meta, file@)->Ok_0;
                &&& 0 <= i < f.row_groups@.len()
                &&& 0 <= r < meta.row_count
                &&& ids_there(self.codec, f, file@, i)
                &&& g.flag == RG_COMPRESS_NONE
                &&& identifier(self.codec, f, file@, i, r) == id
                &&& meta.min_id <= id <= meta.max_id
                &&& id - meta.min_id < meta.row_count
                &&& g.ids != RG_IDS_IMPLICIT_CONTIGUOUS ==> words_ascend(
                    g.body,
                    0,
                    meta.row_count as int,
                )
                &&& forall|j: int|
                    0 <= j < f.row_groups@.len() && j != i ==> !((#[trigger] f.row_groups@[j]).min_id
                        <= id <= f.row_groups@[j].max_id)
            },
        ensures
            ({
                let f = self.footer->0;
                let file = self.file->0@;
                self.id_active(id) == Ok::<Option<bool>, ScanError>(
                    Some(
                        !flag(
                            group_of(self.codec, f.row_groups@[i], file)->Ok_0.body,
                            ids_len(self.codec, f, file, i),
                            r,
                        ),
                    ),
                )
            }),
    {
        let f = self.footer->0;
        let file = self.file->0@;
        let meta = f.row_groups@[i];
        let rows = meta.row_count as int;
        let g = group_of(self.codec, meta, file)->Ok_0;
        let s = stored_group(meta, file)->Ok_0;
        assert(tail(s, 32) == g.body);
        only_group(f.row_groups@, id, 0, i);
        let guess = id - meta.min_id;
        if g.ids != RG_IDS_IMPLICIT_CONTIGUOUS {
            law_there_is_found(g.body, 0, rows, id, r);
            if u64_le(g.body, guess * 8) == id {
                if guess < r {
                    assert(u64_le(g.body, guess * 8) < u64_le(g.body, r * 8));
                } else if r < guess {
                    assert(u64_le(g.body, r * 8) < u64_le(g.body, guess * 8));
                }
            }
        }
        assert(row_of_id(meta, s, id) == Ok::<Option<int>, ScanError>(Some(r)));
        let section = id_section(rows, g.ids);
        assert(r / 8 < marks_len(rows));
        assert(tail(g.body, section)[r / 8] == g.body[section + r / 8]);
    }

    /// An identifier that no row group can hold is told not to be live.
    pub proof fn law_unknown_id_is_not_live(self, id: u64)
        requires
            self.footer matches Some(f) && forall|j: int|
                0 <= j < f.row_groups@.len() ==> !((#[trigger] f.row_groups@[j]).min_id <= id
                    <= f.row_groups@[j].max_id),
        ensures
            self.id_active(id) == Ok::<Option<bool>, ScanError>(Some(false)),
    {
        no_group(self.footer->0.row_groups@, id, 0);
    }
}

proof fn only_group(groups: Seq<RowGroupMeta>, id: u64, j: int, i: int)
    requires
        0 <= j <= i < groups.len(),
        groups[i].min_id <= id <= groups[i].max_id,
        groups[i].row_count > 0,
        forall|k: int|
            0 <= k < groups.len() && k != i ==> !((#[trigger] groups[k]).min_id <= id
                <= groups[k].max_id),
    ensures
        group_from(groups, id, j) == Some(i),
    decreases i - j,
{
    if j < i {
        only_group(groups, id, j + 1, i);
        assert(!(groups[j].min_id <= id <= groups[j].max_id));
    }
}

proof fn no_group(groups: Seq<RowGroupMeta>, id: u64, j: int)
    requires
        0 <= j,
        forall|k: int|
            0 <= k < groups.len() ==> !((#[trigger] groups[k]).min_id <= id <= groups[k].max_id),
    ensures
        group_from(groups, id, j) is None,
    decreases groups.len() - j,
{
    if j < groups.len() {
        no_group(groups, id, j + 1);
        assert(!(groups[j].min_id <= id <= groups[j].max_id));
    }
}

/// The largest of some identifiers is one of them.
proof fn top_is_one(ids: Seq<u64>)
    ensures
        ids.len() == 0 ==> top_id(ids) == 0,
        top_id(ids) == 0 || exists|k: int| 0 <= k < ids.len() && #[trigger] ids[k] == top_id(ids),
    decreases ids.len(),
{
    if ids.len() > 0 {
        let d = ids.drop_last();
        top_is_one(d);
        if ids.last() > top_id(d) {
            assert(ids[ids.len() - 1] == top_id(ids));
        } else if top_id(d) != 0 {
            let k = choose|k: int| 0 <= k < d.len() && #[trigger] d[k] == top_id(d);
            assert(ids[k] == top_id(ids));
        }
    }
}

} // verus!
