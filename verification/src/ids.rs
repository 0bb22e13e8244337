//! Identifiers: loading them, reading them back, and finding out whether one is live.

use ahash::AHashMap;
use vstd::prelude::*;
use vstd::slice::slice_subrange;

use crate::bytes::{bit, bitmap_len, read_u64, signed, test_bit, u64_le};
use crate::codec::ColumnCodec;
use crate::group::{
    get_stored, get_tail, get_window, group_of, id_at, id_section, open_group, rg_bitmap_len,
    rg_id_at, rg_id_section_len, stored_group, tail, window, Group,
};
use crate::model::{rows_before, RowGroupMeta, ScanError, V4Footer, RG_COMPRESS_NONE};
use crate::numeric::min2;
use crate::outside::{id_index_insert, id_index_new, index_of_ids};
use crate::storage::OnDemandStorage;

verus! {

/// The identifiers of the first `k` rows of a row group, up to the first that cannot be read, and
/// whether all could be read.
pub open spec fn ids_upto(body: Seq<u8>, min_id: u64, ids: u8, k: int) -> (Seq<u64>, bool)
    decreases k,
{
    if k <= 0 {
        (Seq::empty(), true)
    } else {
        let (s, ok) = ids_upto(body, min_id, ids, k - 1);
        if !ok {
            (s, false)
        } else {
            match id_at(body, min_id, ids, k - 1) {
                None => (s, false),
                Some(id) => (s.push(id as u64), true),
            }
        }
    }
}

/// What loading has brought so far.
#[verifier::ext_equal]
pub struct Loaded {
    pub ids: Seq<u64>,
    pub deleted: Seq<u8>,
    pub error: Option<ScanError>,
}

/// What loading the first `k` row groups brings. Identifiers that were read before an error stay.
pub open spec fn load<C: ColumnCodec>(c: C, f: V4Footer, file: Seq<u8>, k: int) -> Loaded
    decreases k,
{
    if k <= 0 {
        Loaded { ids: Seq::empty(), deleted: Seq::empty(), error: None }
    } else {
        let before = load(c, f, file, k - 1);
        if before.error is Some {
            before
        } else {
            load_group(c, f.row_groups@[k - 1], file, before)
        }
    }
}

/// What loading one more row group brings.
pub open spec fn load_group<C: ColumnCodec>(
    c: C,
    meta: RowGroupMeta,
    file: Seq<u8>,
    before: Loaded,
) -> Loaded {
    let rows = meta.row_count as int;
    if rows == 0 {
        before
    } else {
        match group_of(c, meta, file) {
            Err(e) => Loaded { error: Some(e), ..before },
            Ok(g) => if id_section(rows, g.ids) > g.body.len() {
                Loaded { error: Some(ScanError::IdsTruncated), ..before }
            } else {
                let (s, ok) = ids_upto(g.body, meta.min_id, g.ids, rows);
                if !ok {
                    Loaded { ids: before.ids + s, error: Some(ScanError::IdsTruncated), ..before }
                } else {
                    match window(g.body, id_section(rows, g.ids), bitmap_len(rows)) {
                        None => Loaded {
                            ids: before.ids + s,
                            error: Some(ScanError::DeletionsTruncated),
                            ..before
                        },
                        Some(d) => Loaded {
                            ids: before.ids + s,
                            deleted: before.deleted + d,
                            error: None,
                        },
                    }
                }
            },
        }
    }
}

/// The largest of some identifiers, 0 where there are none.
pub open spec fn top_id(ids: Seq<u64>) -> int
    decreases ids.len(),
{
    if ids.len() == 0 {
        0
    } else if ids.last() > top_id(ids.drop_last()) {
        ids.last() as int
    } else {
        top_id(ids.drop_last())
    }
}

/// The first failure stays.
proof fn load_failed<C: ColumnCodec>(c: C, f: V4Footer, file: Seq<u8>, j: int, k: int)
    requires
        0 <= j <= k,
        load(c, f, file, j).error is Some,
    ensures
        load(c, f, file, k) == load(c, f, file, j),
    decreases k,
{
    if j < k {
        load_failed(c, f, file, j, k - 1);
    }
}

proof fn ids_upto_failed(body: Seq<u8>, min_id: u64, ids: u8, j: int, k: int)
    requires
        0 <= j <= k,
        !ids_upto(body, min_id, ids, j).1,
    ensures
        ids_upto(body, min_id, ids, k) == ids_upto(body, min_id, ids, j),
    decreases k,
{
    if j < k {
        ids_upto_failed(body, min_id, ids, j, k - 1);
    }
}

/// Loading brings at most one identifier for each row.
proof fn load_len<C: ColumnCodec>(c: C, f: V4Footer, file: Seq<u8>, k: int)
    requires
        0 <= k,
    ensures
        load(c, f, file, k).ids.len() <= rows_before(f.row_groups@, k),
    decreases k,
{
    if k > 0 {
        load_len(c, f, file, k - 1);
        let meta = f.row_groups@[k - 1];
        if let Ok(g) = group_of(c, meta, file) {
            ids_upto_len(g.body, meta.min_id, g.ids, meta.row_count as int);
        }
    }
}

proof fn ids_upto_len(body: Seq<u8>, min_id: u64, ids: u8, k: int)
    requires
        0 <= k,
    ensures
        ids_upto(body, min_id, ids, k).0.len() <= k,
    decreases k,
{
    if k > 0 {
        ids_upto_len(body, min_id, ids, k - 1);
    }
}

/// Appends the identifiers of a row group; `false` where one cannot be read.
fn push_group_ids(body: &[u8], min_id: u64, ids: u8, rows: u32, out: &mut Vec<u64>) -> (ok: bool)
    ensures
        final(out)@ == old(out)@ + ids_upto(body@, min_id, ids, rows as int).0,
        ok == ids_upto(body@, min_id, ids, rows as int).1,
{
    let mut i: u32 = 0;
    while i < rows
        invariant
            i <= rows,
            out@ =~= old(out)@ + ids_upto(body@, min_id, ids, i as int).0,
            ids_upto(body@, min_id, ids, i as int).1,
        decreases rows - i,
    {
        match rg_id_at(body, min_id, ids, i) {
            None => {
                proof {
                    ids_upto_failed(body@, min_id, ids, i + 1, rows as int);
                }
                return false;
            },
            Some(id) => out.push(id),
        }
        i = i + 1;
    }
    true
}

/// Loads one more row group.
fn push_group<C: ColumnCodec>(
    c: &C,
    meta: &RowGroupMeta,
    file: &[u8],
    ids: &mut Vec<u64>,
    deleted: &mut Vec<u8>,
) -> (r: Option<ScanError>)
    ensures
        (Loaded { ids: final(ids)@, deleted: final(deleted)@, error: r }) == load_group(
            *c,
            *meta,
            file@,
            (Loaded { ids: old(ids)@, deleted: old(deleted)@, error: None }),
        ),
{
    let rows: u32 = meta.row_count;
    if rows == 0 {
        return None;
    }
    let g: Group = match open_group(c, meta, file) {
        Err(e) => {
            return Some(e);
        },
        Ok(g) => g,
    };
    let body: &[u8] = g.body();
    let section: u64 = rg_id_section_len(rows, g.ids);
    if section > body.len() as u64 {
        return Some(ScanError::IdsTruncated);
    }
    if !push_group_ids(body, meta.min_id, g.ids, rows, ids) {
        return Some(ScanError::IdsTruncated);
    }
    match get_window(body, section, rg_bitmap_len(rows)) {
        None => Some(ScanError::DeletionsTruncated),
        Some(d) => {
            deleted.extend_from_slice(d);
            proof {
                assert(deleted@ =~= old(deleted)@ + d@);
            }
            None
        },
    }
}

/// The largest of some identifiers.
fn get_top_id(ids: &Vec<u64>) -> (r: u64)
    ensures
        r == top_id(ids@),
{
    let mut top: u64 = 0;
    let mut i: usize = 0;
    assert(ids@.take(0) =~= Seq::empty());
    while i < ids.len()
        invariant
            i <= ids@.len(),
            top == top_id(ids@.take(i as int)),
        decreases ids@.len() - i,
    {
        assert(ids@.take(i + 1).drop_last() =~= ids@.take(i as int));
        if ids[i] > top {
            top = ids[i];
        }
        i = i + 1;
    }
    assert(ids@.take(ids@.len() as int) =~= ids@);
    top
}

/// A first position in `left..right` at which a word equals `id`, by bisection.
pub open spec fn bisect_ids(s: Seq<u8>, left: int, right: int, id: u64) -> Option<int>
    decreases right - left,
{
    if left >= right {
        None
    } else {
        let mid = left + (right - left) / 2;
        let v = u64_le(s, mid * 8);
        if v < id {
            bisect_ids(s, mid + 1, right, id)
        } else if v > id {
            bisect_ids(s, left, mid, id)
        } else {
            Some(mid)
        }
    }
}

/// Finds an identifier among ascending ones.
pub fn search_ids(s: &[u8], rows: u32, id: u64) -> (r: Option<u32>)
    requires
        rows * 8 <= s.len(),
    ensures
        match r {
            None => bisect_ids(s@, 0, rows as int, id) is None,
            Some(k) => bisect_ids(s@, 0, rows as int, id) == Some(k as int) && k < rows,
        },
{
    let mut left: u32 = 0;
    let mut right: u32 = rows;
    while left < right
        invariant
            left <= right <= rows,
            rows * 8 <= s.len(),
            bisect_ids(s@, 0, rows as int, id) == bisect_ids(s@, left as int, right as int, id),
        decreases right - left,
    {
        let mid: u32 = left + (right - left) / 2;
        let v: u64 = read_u64(s, mid as usize * 8);
        if v < id {
            left = mid + 1;
        } else if v > id {
            right = mid;
        } else {
            return Some(mid);
        }
    }
    None
}

/// The first row group from `i` on whose identifiers can hold `id`.
pub open spec fn group_from(groups: Seq<RowGroupMeta>, id: u64, i: int) -> Option<int>
    decreases groups.len() - i,
{
    if i >= groups.len() {
        None
    } else if groups[i].min_id <= id <= groups[i].max_id && groups[i].row_count > 0 {
        Some(i)
    } else {
        group_from(groups, id, i + 1)
    }
}

/// Finds the first row group whose identifiers can hold `id`.
pub fn find_group(groups: &Vec<RowGroupMeta>, id: u64) -> (r: Option<usize>)
    ensures
        match r {
            None => group_from(groups@, id, 0) is None,
            Some(i) => group_from(groups@, id, 0) == Some(i as int) && i < groups@.len()
                && groups@[i as int].min_id <= id <= groups@[i as int].max_id
                && groups@[i as int].row_count > 0,
        },
{
    let mut i: usize = 0;
    while i < groups.len()
        invariant
            i <= groups@.len(),
            group_from(groups@, id, 0) == group_from(groups@, id, i as int),
        decreases groups@.len() - i,
    {
        if groups[i].min_id <= id && id <= groups[i].max_id && groups[i].row_count > 0 {
            return Some(i);
        }
        i = i + 1;
    }
    None
}

/// The row that holds `id` in a row group with stored bytes `s`: the row at the distance of `id`
/// from the first identifier, or the one that a search finds. `Err` where that row has no
/// identifier.
pub open spec fn row_of_id(meta: RowGroupMeta, s: Seq<u8>, id: u64) -> Result<
    Option<int>,
    ScanError,
> {
    let body = tail(s, 32);
    let rows = meta.row_count as int;
    let guess = id - meta.min_id;
    if guess >= rows {
        Ok(None)
    } else {
        match id_at(body, meta.min_id, s[30], guess) {
            None => Err(ScanError::IdsTruncated),
            Some(actual) => if actual == id {
                Ok(Some(guess))
            } else {
                Ok(bisect_ids(body, 0, rows, id))
            },
        }
    }
}

/// Whether `id` is live in a row group, `None` where the row group cannot be looked into.
pub open spec fn live_in(meta: RowGroupMeta, file: Seq<u8>, id: u64) -> Result<
    Option<bool>,
    ScanError,
> {
    match stored_group(meta, file) {
        Err(_) => Ok(None),
        Ok(s) => {
            let body = tail(s, 32);
            let section = id_section(meta.row_count as int, s[30]);
            if s[28] != RG_COMPRESS_NONE || body.len() < section {
                Ok(None)
            } else {
                match row_of_id(meta, s, id) {
                    Err(e) => Err(e),
                    Ok(None) => Ok(Some(false)),
                    Ok(Some(row)) => if section + row / 8 >= body.len() {
                        Ok(None)
                    } else {
                        Ok(Some(!bit(tail(body, section), row)))
                    },
                }
            }
        },
    }
}

impl<C: ColumnCodec> OnDemandStorage<C> {
    /// What loading brings; nothing where identifiers are there already or there is no catalogue.
    pub open spec fn loading(self) -> Option<Loaded> {
        if self.ids@.len() > 0 || self.footer is None {
            None
        } else {
            match self.file {
                None => Some(
                    Loaded {
                        ids: Seq::empty(),
                        deleted: Seq::empty(),
                        error: Some(ScanError::NotOpen),
                    },
                ),
                Some(file) => Some(
                    load(
                        self.codec,
                        self.footer->0,
                        file@,
                        self.footer->0.row_groups@.len() as int,
                    ),
                ),
            }
        }
    }

    /// How loading ends: an error of the row groups, or that no identifier is left for the next
    /// row.
    pub open spec fn load_result(self) -> Result<(), ScanError> {
        match self.loading() {
            None => Ok(()),
            Some(l) => match l.error {
                Some(e) => Err(e),
                None => if top_id(l.ids) == u64::MAX {
                    Err(ScanError::LengthOverflow)
                } else {
                    Ok(())
                },
            },
        }
    }

    /// The identifiers after loading.
    pub open spec fn ids_after_load(self) -> Seq<u64> {
        match self.loading() {
            None => self.ids@,
            Some(l) => l.ids,
        }
    }

    /// The deletion bitmaps after loading. They are taken over only from a store that was read to
    /// the end and has rows.
    pub open spec fn deleted_after_load(self) -> Seq<u8> {
        match self.loading() {
            Some(l) if l.error is None && l.deleted.len() > 0 => l.deleted,
            _ => self.deleted@,
        }
    }

    /// The identifier of the next row after loading.
    pub open spec fn next_id_after_load(self) -> int {
        match self.loading() {
            Some(l) if l.error is None && top_id(l.ids) < u64::MAX && top_id(l.ids) + 1
                > self.next_id => top_id(l.ids) + 1,
            _ => self.next_id as int,
        }
    }

    /// The rest of the store stays as it was.
    pub open spec fn same_but_ids(self, other: Self) -> bool {
        &&& self.footer == other.footer
        &&& self.footer_offset == other.footer_offset
        &&& self.file == other.file
        &&& self.codec == other.codec
        &&& self.row_count == other.row_count
        &&& self.id_to_idx == other.id_to_idx
        &&& self.delta_rows == other.delta_rows
        &&& self.delta_ids == other.delta_ids
        &&& self.columns == other.columns
        &&& self.journal == other.journal
    }

    /// Loads the identifiers and deletion bitmaps of all row groups, unless that was done.
    pub fn ensure_ids_loaded_v4(&mut self) -> (r: Result<(), ScanError>)
        requires
            old(self).wf(),
        ensures
            final(self).wf(),
            r == old(self).load_result(),
            final(self).ids@ == old(self).ids_after_load(),
            final(self).deleted@ == old(self).deleted_after_load(),
            final(self).next_id == old(self).next_id_after_load(),
            final(self).same_but_ids(*old(self)),
    {
        if self.ids.len() > 0 {
            return Ok(());
        }
        let mut ids: Vec<u64> = Vec::new();
        let mut deleted: Vec<u8> = Vec::new();
        let mut error: Option<ScanError> = None;
        match &self.footer {
            None => {
                return Ok(());
            },
            Some(f) => match &self.file {
                None => {
                    assert(self.ids@ =~= Seq::empty());
                    return Err(ScanError::NotOpen);
                },
                Some(file) => {
                    let mut i: usize = 0;
                    while i < f.row_groups.len() && error.is_none()
                        invariant
                            i <= f.row_groups@.len(),
                            self.footer == Some(*f),
                            self.file == Some(*file),
                            error is None ==> (Loaded {
                                ids: ids@,
                                deleted: deleted@,
                                error,
                            }) == load(self.codec, *f, file@, i as int),
                            error is Some ==> (Loaded {
                                ids: ids@,
                                deleted: deleted@,
                                error,
                            }) == load(self.codec, *f, file@, f.row_groups@.len() as int),
                        decreases f.row_groups@.len() - i,
                    {
                        let file: &[u8] = file.as_slice();
                        error = push_group(
                            &self.codec,
                            &f.row_groups[i],
                            file,
                            &mut ids,
                            &mut deleted,
                        );
                        i = i + 1;
                        proof {
                            if error is Some {
                                load_failed(
                                    self.codec,
                                    *f,
                                    file@,
                                    i as int,
                                    f.row_groups@.len() as int,
                                );
                            }
                        }
                    }
                    proof {
                        load_len(self.codec, *f, file@, f.row_groups@.len() as int);
                    }
                },
            },
        }
        let top: u64 = get_top_id(&ids);
        self.ids = ids;
        if let Some(e) = error {
            return Err(e);
        }
        if deleted.len() > 0 {
            self.deleted = deleted;
        }
        if top == u64::MAX {
            return Err(ScanError::LengthOverflow);
        }
        if top + 1 > self.next_id {
            self.next_id = top + 1;
        }
        Ok(())
    }

    /// Whether identifiers still have to be loaded.
    pub open spec fn needs_ids(self) -> bool {
        self.ids@.len() == 0 && self.row_count > 0
    }

    /// The identifiers after loading on demand.
    pub open spec fn ids_on_demand(self) -> Seq<u64> {
        if self.needs_ids() {
            self.ids_after_load()
        } else {
            self.ids@
        }
    }

    /// How loading on demand ends.
    pub open spec fn demand_result(self) -> Result<(), ScanError> {
        if self.needs_ids() {
            self.load_result()
        } else {
            Ok(())
        }
    }

    /// What loading on demand leaves behind.
    pub open spec fn loaded_from(self, before: Self) -> bool {
        &&& self.same_but_ids(before)
        &&& self.wf()
        &&& self.ids@ == before.ids_on_demand()
        &&& if before.needs_ids() {
            &&& self.deleted@ == before.deleted_after_load()
            &&& self.next_id == before.next_id_after_load()
        } else {
            &&& self.deleted@ == before.deleted@
            &&& self.next_id == before.next_id
        }
    }

    /// Loads the identifiers of a store that has rows, unless that was done.
    pub fn ensure_ids_loaded(&mut self) -> (r: Result<(), ScanError>)
        requires
            old(self).wf(),
        ensures
            r == old(self).demand_result(),
            final(self).loaded_from(*old(self)),
    {
        if self.ids.len() > 0 || self.row_count == 0 {
            return Ok(());
        }
        self.ensure_ids_loaded_v4()
    }

    /// The identifiers of the rows `start..end`, counting the appended rows after the others.
    pub open spec fn ids_between(self, ids: Seq<u64>, start: int, end: int) -> Seq<u64> {
        let base = ids.len() as int;
        let first = if start < base {
            ids.subrange(start, min2(end, base))
        } else {
            Seq::empty()
        };
        let second = match self.delta_ids {
            Some(d) if end > base => {
                let from = if start > base {
                    start - base
                } else {
                    0
                };
                let to = min2(end - base, d@.len() as int);
                if from < to {
                    d@.subrange(from, to)
                } else {
                    Seq::empty()
                }
            },
            _ => Seq::empty(),
        };
        first + second
    }

    /// The identifiers of a range of rows, cut to the rows that there are.
    pub open spec fn id_range(self, start_row: usize, row_count: Option<usize>) -> Seq<u64> {
        let ids = self.ids_on_demand();
        let total = ids.len() + self.delta_rows;
        let start = min2(start_row as int, total);
        let count = match row_count {
            None => total - start,
            Some(c) => min2(c as int, total - start),
        };
        self.ids_between(ids, start, start + count)
    }

    /// Reads the identifiers of a range of rows.
    pub fn read_ids(&mut self, start_row: usize, row_count: Option<usize>) -> (r: Result<
        Vec<u64>,
        ScanError,
    >)
        requires
            old(self).wf(),
        ensures
            final(self).loaded_from(*old(self)),
            match r {
                Err(e) => old(self).demand_result() == Err::<(), ScanError>(e),
                Ok(v) => old(self).demand_result() is Ok && v@ == old(self).id_range(
                    start_row,
                    row_count,
                ),
            },
    {
        match self.ensure_ids_loaded() {
            Err(e) => {
                return Err(e);
            },
            Ok(()) => {},
        }
        let base: usize = self.ids.len();
        let total: usize = base + self.delta_rows;
        let start: usize = if start_row < total {
            start_row
        } else {
            total
        };
        let count: usize = match row_count {
            None => total - start,
            Some(c) => if c < total - start {
                c
            } else {
                total - start
            },
        };
        let end: usize = start + count;
        let mut out: Vec<u64> = Vec::with_capacity(count);
        if start < base {
            let base_end: usize = if end < base {
                end
            } else {
                base
            };
            out.extend_from_slice(slice_subrange(self.ids.as_slice(), start, base_end));
        }
        if end > base {
            if let Some(d) = &self.delta_ids {
                let from: usize = if start > base {
                    start - base
                } else {
                    0
                };
                let to: usize = if end - base < d.len() {
                    end - base
                } else {
                    d.len()
                };
                if from < to {
                    out.extend_from_slice(slice_subrange(d.as_slice(), from, to));
                }
            }
        }
        assert(out@ =~= old(self).id_range(start_row, row_count));
        Ok(out)
    }

    /// The identifiers of some rows, as signed numbers; 0 for a row that is not there.
    pub open spec fn ids_read(self, rows: Seq<usize>) -> Result<Seq<i64>, ScanError> {
        let ids = self.ids_on_demand();
        match self.demand_result() {
            Err(e) => Err(e),
            Ok(()) => Ok(
                Seq::new(
                    rows.len(),
                    |k: int|
                        if rows[k] < ids.len() {
                            signed(ids[rows[k] as int] as int) as i64
                        } else {
                            0
                        },
                ),
            ),
        }
    }

    /// Reads the identifiers of some rows, as signed numbers; 0 for a row that is not there.
    pub fn read_ids_by_indices(&mut self, row_indices: &[usize]) -> (r: Result<
        Vec<i64>,
        ScanError,
    >)
        requires
            old(self).wf(),
        ensures
            final(self).loaded_from(*old(self)),
            match r {
                Err(e) => old(self).ids_read(row_indices@) == Err::<Seq<i64>, ScanError>(e),
                Ok(v) => old(self).ids_read(row_indices@) == Ok::<Seq<i64>, ScanError>(v@),
            },
    {
        match self.ensure_ids_loaded() {
            Err(e) => {
                return Err(e);
            },
            Ok(()) => {},
        }
        let mut out: Vec<i64> = Vec::with_capacity(row_indices.len());
        let mut k: usize = 0;
        while k < row_indices.len()
            invariant
                k <= row_indices.len(),
                out@.len() == k,
                self.ids@ == old(self).ids_on_demand(),
                forall|j: int|
                    0 <= j < k ==> #[trigger] out@[j] == (if row_indices@[j] < self.ids@.len() {
                        signed(self.ids@[row_indices@[j] as int] as int)
                    } else {
                        0
                    }),
            decreases row_indices.len() - k,
        {
            let i: usize = row_indices[k];
            if i < self.ids.len() {
                out.push(crate::bytes::as_signed(self.ids[i]));
            } else {
                out.push(0);
            }
            k = k + 1;
        }
        assert(Ok::<Seq<i64>, ScanError>(out@) == old(self).ids_read(row_indices@)) by {
            assert(out@ =~= old(self).ids_read(row_indices@)->Ok_0);
        }
        Ok(out)
    }

    /// The row of each identifier; of a repeated identifier the last row.
    pub open spec fn index_upto(ids: Seq<u64>, k: int) -> Map<u64, usize>
        decreases k,
    {
        if k <= 0 {
            Map::empty()
        } else {
            Self::index_upto(ids, k - 1).insert(ids[k - 1], (k - 1) as usize)
        }
    }

    /// Builds the index from identifiers to rows, unless that was done. Where identifiers cannot
    /// be loaded it covers those that were.
    pub fn ensure_id_index(&mut self)
        requires
            old(self).wf(),
        ensures
            final(self).ids@ == old(self).ids_on_demand(),
            old(self).id_to_idx is Some ==> final(self).id_to_idx == old(self).id_to_idx,
            old(self).id_to_idx is None ==> (final(self).id_to_idx matches Some(m) && index_of_ids(
                m,
            ) == Self::index_upto(final(self).ids@, final(self).ids@.len() as int)),
            (OnDemandStorage { id_to_idx: old(self).id_to_idx, ..*final(self) }).loaded_from(
                *old(self),
            ),
    {
        let _ = self.ensure_ids_loaded();
        if self.id_to_idx.is_none() {
            let mut map: AHashMap<u64, usize> = id_index_new();
            let mut i: usize = 0;
            while i < self.ids.len()
                invariant
                    i <= self.ids@.len(),
                    index_of_ids(map) == Self::index_upto(self.ids@, i as int),
                decreases self.ids@.len() - i,
            {
                id_index_insert(&mut map, self.ids[i], i);
                i = i + 1;
            }
            self.id_to_idx = Some(map);
        }
    }

    /// Whether an identifier belongs to a row that is not deleted.
    pub open spec fn id_active(self, id: u64) -> Result<Option<bool>, ScanError> {
        match self.footer {
            None => Ok(None),
            Some(f) => match group_from(f.row_groups@, id, 0) {
                None => Ok(Some(false)),
                Some(i) => match self.file {
                    None => Err(ScanError::NotOpen),
                    Some(file) => live_in(f.row_groups@[i], file@, id),
                },
            },
        }
    }

    /// Tells whether an identifier belongs to a row that is not deleted; no answer where the row
    /// group cannot be looked into.
    pub fn row_id_active_rcix(&self, id: u64) -> (r: Result<Option<bool>, ScanError>)
        ensures
            r == self.id_active(id),
    {
        let f: &V4Footer = match &self.footer {
            None => {
                return Ok(None);
            },
            Some(f) => f,
        };
        let i: usize = match find_group(&f.row_groups, id) {
            None => {
                return Ok(Some(false));
            },
            Some(i) => i,
        };
        let meta: RowGroupMeta = f.row_groups[i];
        let file: &[u8] = match &self.file {
            None => {
                return Err(ScanError::NotOpen);
            },
            Some(v) => v.as_slice(),
        };
        let s: &[u8] = match get_stored(&meta, file) {
            Err(_) => {
                return Ok(None);
            },
            Ok(s) => s,
        };
        let body: &[u8] = get_tail(s, 32);
        let rows: u32 = meta.row_count;
        let section: u64 = rg_id_section_len(rows, s[30]);
        if s[28] != RG_COMPRESS_NONE || (body.len() as u64) < section {
            return Ok(None);
        }
        if id - meta.min_id >= rows as u64 {
            return Ok(Some(false));
        }
        let guess: u32 = (id - meta.min_id) as u32;
        let row: u32 = match rg_id_at(body, meta.min_id, s[30], guess) {
            None => {
                return Err(ScanError::IdsTruncated);
            },
            Some(actual) => if actual == id {
                guess
            } else {
                match search_ids(body, rows, id) {
                    None => {
                        return Ok(Some(false));
                    },
                    Some(k) => k,
                }
            },
        };
        if section + (row / 8) as u64 >= body.len() as u64 {
            return Ok(None);
        }
        Ok(Some(!test_bit(get_tail(body, section as usize), row as usize)))
    }
}

} // verus!
