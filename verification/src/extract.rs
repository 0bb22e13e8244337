//! Rows by their numbers.

use vstd::prelude::*;

use crate::batch::names_view;
use crate::bytes::{as_signed, bitmap_len, signed};
use crate::cells::{
    cell_view, cells_of, cells_result, cells_view, get_cells, get_pick, pick, Cell, CellSeq, Pick,
    PickSeq, Slot,
};
use crate::codec::ColumnCodec;
use crate::group::{
    get_stored, get_tail, get_window, id_at, id_section, rg_bitmap_len, rg_id_at,
    rg_id_section_len, stored_group, tail, window,
};
use crate::model::{
    is_float, is_int, rows_before, rows_before_monotonic, ColumnType, OnDemandSchema,
    RowGroupMeta, ScanError, V4Footer, RG_COMPRESS_NONE,
};
use crate::outside::{eq_but_case, same_but_case};

verus! {

/// Rows that are asked for in one row group: their places in the answer and their numbers in the
/// row group.
#[verifier::ext_equal]
pub struct HitsSeq {
    pub outs: Seq<usize>,
    pub rows: Seq<usize>,
}

/// Rows that are asked for in one row group.
pub struct Hits {
    pub outs: Vec<usize>,
    pub rows: Vec<usize>,
}

impl View for Hits {
    type V = HitsSeq;

    open spec fn view(&self) -> HitsSeq {
        HitsSeq { outs: self.outs@, rows: self.rows@ }
    }
}

/// Those of the first `k` numbers that lie in `lo..hi`.
pub open spec fn hits_between(lo: int, hi: int, indices: Seq<usize>, k: int) -> HitsSeq
    decreases k,
{
    if k <= 0 {
        HitsSeq { outs: Seq::empty(), rows: Seq::empty() }
    } else {
        let before = hits_between(lo, hi, indices, k - 1);
        if lo <= indices[k - 1] < hi {
            HitsSeq {
                outs: before.outs.push((k - 1) as usize),
                rows: before.rows.push((indices[k - 1] - lo) as usize),
            }
        } else {
            before
        }
    }
}

/// The rows that are asked for in row group `i`.
pub open spec fn hits_of(groups: Seq<RowGroupMeta>, indices: Seq<usize>, i: int) -> HitsSeq {
    hits_between(
        rows_before(groups, i),
        rows_before(groups, i + 1),
        indices,
        indices.len() as int,
    )
}

/// Hits have their places in the answer and lie in their row group.
pub proof fn hits_bound(lo: int, hi: int, indices: Seq<usize>, k: int)
    requires
        0 <= k <= indices.len(),
        indices.len() <= usize::MAX,
        0 <= lo <= hi,
    ensures
        hits_between(lo, hi, indices, k).outs.len() == hits_between(lo, hi, indices, k).rows.len(),
        hits_between(lo, hi, indices, k).outs.len() <= k,
        forall|j: int|
            0 <= j < hits_between(lo, hi, indices, k).outs.len() ==> #[trigger] hits_between(
                lo,
                hi,
                indices,
                k,
            ).outs[j] < k,
        forall|j: int|
            0 <= j < hits_between(lo, hi, indices, k).rows.len() ==> #[trigger] hits_between(
                lo,
                hi,
                indices,
                k,
            ).rows[j] < hi - lo,
    decreases k,
{
    if k > 0 {
        hits_bound(lo, hi, indices, k - 1);
    }
}

fn find_hits(lo: usize, hi: usize, indices: &[usize]) -> (r: Hits)
    requires
        lo <= hi,
    ensures
        r@ == hits_between(lo as int, hi as int, indices@, indices@.len() as int),
{
    let mut outs: Vec<usize> = Vec::new();
    let mut rows: Vec<usize> = Vec::new();
    let mut k: usize = 0;
    while k < indices.len()
        invariant
            k <= indices.len(),
            (HitsSeq { outs: outs@, rows: rows@ }) =~= hits_between(
                lo as int,
                hi as int,
                indices@,
                k as int,
            ),
        decreases indices.len() - k,
    {
        let row: usize = indices[k];
        if lo <= row && row < hi {
            outs.push(k);
            rows.push(row - lo);
        }
        k = k + 1;
    }
    Hits { outs, rows }
}

/// The rows that are asked for in each of the first `n` row groups.
pub open spec fn all_hits(groups: Seq<RowGroupMeta>, indices: Seq<usize>) -> Seq<HitsSeq> {
    Seq::new(groups.len(), |i: int| hits_of(groups, indices, i))
}

/// Hits as sequences.
pub open spec fn hits_view(v: Seq<Hits>) -> Seq<HitsSeq> {
    Seq::new(v.len(), |i: int| v[i]@)
}

/// Whether hits have their places in an answer of `n` rows and lie in their row groups.
pub open spec fn hits_fit(groups: Seq<RowGroupMeta>, hits: Seq<HitsSeq>, n: int) -> bool {
    &&& hits.len() == groups.len()
    &&& forall|i: int|
        0 <= i < hits.len() ==> (#[trigger] hits[i]).outs.len() == hits[i].rows.len()
    &&& forall|i: int, j: int|
        0 <= i < hits.len() && 0 <= j < hits[i].outs.len() ==> #[trigger] hits[i].outs[j] < n
    &&& forall|i: int, j: int|
        0 <= i < hits.len() && 0 <= j < hits[i].rows.len() ==> #[trigger] hits[i].rows[j]
            < groups[i].row_count
}

pub(crate) fn get_all_hits(f: &V4Footer, indices: &[usize]) -> (r: Vec<Hits>)
    requires
        f.wf(),
    ensures
        hits_view(r@) == all_hits(f.row_groups@, indices@),
        hits_fit(f.row_groups@, hits_view(r@), indices@.len() as int),
{
    let ghost groups = f.row_groups@;
    let len: usize = indices.len();
    let mut out: Vec<Hits> = Vec::with_capacity(f.row_groups.len());
    let mut lo: usize = 0;
    let mut i: usize = 0;
    while i < f.row_groups.len()
        invariant
            i <= groups.len(),
            groups == f.row_groups@,
            f.wf(),
            len == indices@.len(),
            lo == rows_before(groups, i as int),
            out@.len() == i,
            forall|k: int| 0 <= k < i ==> (#[trigger] out@[k])@ == hits_of(groups, indices@, k),
        decreases groups.len() - i,
    {
        proof {
            rows_before_monotonic(groups, i + 1, groups.len() as int);
        }
        let hi: usize = lo + f.row_groups[i].row_count as usize;
        out.push(find_hits(lo, hi, indices));
        lo = hi;
        i = i + 1;
    }
    proof {
        assert(hits_view(out@) =~= all_hits(groups, indices@));
        assert forall|i: int| 0 <= i < groups.len() implies (#[trigger] all_hits(
            groups,
            indices@,
        )[i]).outs.len() == all_hits(groups, indices@)[i].rows.len() by {
            rows_before_monotonic(groups, i, i + 1);
            hits_bound(
                rows_before(groups, i),
                rows_before(groups, i + 1),
                indices@,
                indices@.len() as int,
            );
        }
        assert forall|i: int, j: int|
            0 <= i < groups.len() && 0 <= j < all_hits(groups, indices@)[i].outs.len() implies (
        #[trigger] all_hits(groups, indices@)[i].outs[j]) < indices@.len() by {
            rows_before_monotonic(groups, i, i + 1);
            hits_bound(
                rows_before(groups, i),
                rows_before(groups, i + 1),
                indices@,
                indices@.len() as int,
            );
        }
        assert forall|i: int, j: int|
            0 <= i < groups.len() && 0 <= j < all_hits(groups, indices@)[i].rows.len() implies (
        #[trigger] all_hits(groups, indices@)[i].rows[j]) < groups[i].row_count by {
            rows_before_monotonic(groups, i, i + 1);
            hits_bound(
                rows_before(groups, i),
                rows_before(groups, i + 1),
                indices@,
                indices@.len() as int,
            );
        }
    }
    out
}

/// Whether some name is the same as `name` but for case.
pub open spec fn some_name(names: Seq<Seq<char>>, name: Seq<char>) -> bool {
    exists|k: int| 0 <= k < names.len() && #[trigger] same_but_case(names[k], name)
}

/// Whether `name` is asked for: some name is the same but for case, or none are given.
pub open spec fn names_have(names: Option<Seq<Seq<char>>>, name: Seq<char>) -> bool {
    match names {
        None => true,
        Some(v) => some_name(v, name),
    }
}

pub(crate) fn do_names_have(names: Option<&[&str]>, name: &str) -> (r: bool)
    ensures
        r == names_have(names_view(names), name@),
{
    match names {
        None => true,
        Some(v) => {
            let ghost texts: Seq<Seq<char>> = Seq::new(v@.len(), |i: int| v@[i]@);
            let mut k: usize = 0;
            while k < v.len()
                invariant
                    k <= v.len(),
                    texts == Seq::new(v@.len(), |i: int| v@[i]@),
                    names_view(names) == Some(texts),
                    forall|j: int| 0 <= j < k ==> !#[trigger] same_but_case(texts[j], name@),
                decreases v.len() - k,
            {
                assert(texts[k as int] == v@[k as int]@);
                if eq_but_case(v[k], name) {
                    assert(some_name(texts, name@));
                    return true;
                }
                k = k + 1;
            }
            false
        },
    }
}

/// Which columns are asked for.
pub open spec fn needed_of(schema: OnDemandSchema, names: Option<Seq<Seq<char>>>) -> Seq<bool> {
    Seq::new(schema.columns@.len(), |i: int| names_have(names, schema.columns@[i].0@))
}

pub(crate) fn get_needed(schema: &OnDemandSchema, names: Option<&[&str]>) -> (r: Vec<bool>)
    ensures
        r@ == needed_of(*schema, names_view(names)),
{
    let mut out: Vec<bool> = Vec::with_capacity(schema.columns.len());
    let mut i: usize = 0;
    while i < schema.columns.len()
        invariant
            i <= schema.columns@.len(),
            out@ =~= needed_of(*schema, names_view(names)).take(i as int),
        decreases schema.columns@.len() - i,
    {
        out.push(do_names_have(names, schema.columns[i].0.as_str()));
        i = i + 1;
    }
    assert(needed_of(*schema, names_view(names)).take(schema.columns@.len() as int) =~= needed_of(
        *schema,
        names_view(names),
    ));
    out
}

/// What the values of a column are collected as.
pub open spec fn slot_of(kind: ColumnType) -> Slot {
    if is_int(kind) {
        Slot::Int
    } else if is_float(kind) {
        Slot::Real
    } else {
        match kind {
            ColumnType::String => Slot::Text,
            ColumnType::StringDict => Slot::Text,
            ColumnType::Bool => Slot::Truth,
            ColumnType::Binary => Slot::Bytes,
            ColumnType::Blob => Slot::Bytes,
            ColumnType::Null => Slot::Other,
            _ => Slot::List,
        }
    }
}

pub(crate) fn get_slot(kind: ColumnType) -> (r: Slot)
    ensures
        r == slot_of(kind),
{
    if kind.is_int() {
        return Slot::Int;
    }
    if kind.is_float() {
        return Slot::Real;
    }
    match kind {
        ColumnType::String => Slot::Text,
        ColumnType::StringDict => Slot::Text,
        ColumnType::Bool => Slot::Truth,
        ColumnType::Binary => Slot::Bytes,
        ColumnType::Blob => Slot::Bytes,
        ColumnType::Null => Slot::Other,
        _ => Slot::List,
    }
}

/// Values put at their places, the last one first. A value that is not there leaves its place alone.
pub open spec fn placed(buf: Seq<Option<CellSeq>>, outs: Seq<usize>, cells: Seq<Option<CellSeq>>) -> Seq<
    Option<CellSeq>,
>
    decreases cells.len(),
{
    if cells.len() == 0 {
        buf
    } else {
        let now = match cells.last() {
            None => buf,
            Some(x) => buf.update(outs.last() as int, Some(x)),
        };
        placed(now, outs.drop_last(), cells.drop_last())
    }
}

pub(crate) fn put_cells(buf: &mut Vec<Option<Cell>>, outs: &Vec<usize>, cells: Vec<Option<Cell>>)
    requires
        outs@.len() == cells@.len(),
        forall|j: int| 0 <= j < outs@.len() ==> #[trigger] outs@[j] < old(buf)@.len(),
    ensures
        final(buf)@.len() == old(buf)@.len(),
        cells_view(final(buf)@) == placed(cells_view(old(buf)@), outs@, cells_view(cells@)),
{
    let ghost want = placed(cells_view(buf@), outs@, cells_view(cells@));
    let ghost size = buf@.len();
    let mut cells: Vec<Option<Cell>> = cells;
    assert(outs@.take(outs@.len() as int) =~= outs@);
    while cells.len() > 0
        invariant
            cells@.len() <= outs@.len(),
            buf@.len() == size,
            forall|j: int| 0 <= j < outs@.len() ==> #[trigger] outs@[j] < size,
            want == placed(
                cells_view(buf@),
                outs@.take(cells@.len() as int),
                cells_view(cells@),
            ),
        decreases cells@.len(),
    {
        let at: usize = outs[cells.len() - 1];
        let ghost all = cells_view(cells@);
        let ghost now = cells_view(buf@);
        let ghost n = cells@.len() as int;
        assert(outs@[n - 1] < size);
        match cells.pop() {
            None => {},
            Some(x) => {
                proof {
                    assert(cells_view(cells@) =~= all.drop_last());
                    assert(outs@.take(n).drop_last() =~= outs@.take(n - 1));
                }
                if let Some(v) = x {
                    let ghost seen = v@;
                    buf.set(at, Some(v));
                    assert(cells_view(buf@) =~= now.update(at as int, Some(seen)));
                }
            },
        }
    }
}

/// `n` values that are not there.
pub open spec fn no_cells(n: int) -> Seq<Option<CellSeq>> {
    Seq::new(n as nat, |i: int| None)
}

pub(crate) fn get_no_cells(n: usize) -> (r: Vec<Option<Cell>>)
    ensures
        cells_view(r@) == no_cells(n as int),
        r@.len() == n,
{
    let mut out: Vec<Option<Cell>> = Vec::with_capacity(n);
    let mut i: usize = 0;
    while i < n
        invariant
            i <= n,
            out@.len() == i,
            forall|k: int| 0 <= k < i ==> cell_view(#[trigger] out@[k]) is None,
        decreases n - i,
    {
        out.push(None);
        i = i + 1;
    }
    assert(cells_view(out@) =~= no_cells(n as int));
    out
}

/// What is collected: identifiers, the values of each column, and the dimension of each column of
/// lists.
#[verifier::ext_equal]
pub struct PickedSeq {
    pub ids: Seq<i64>,
    pub bufs: Seq<Seq<Option<CellSeq>>>,
    pub dims: Seq<u32>,
}

/// What is collected.
pub struct Picked {
    pub ids: Vec<i64>,
    pub bufs: Vec<Vec<Option<Cell>>>,
    pub dims: Vec<u32>,
}

/// Values of several columns as sequences.
pub open spec fn bufs_view(v: Seq<Vec<Option<Cell>>>) -> Seq<Seq<Option<CellSeq>>> {
    Seq::new(v.len(), |i: int| cells_view(v[i]@))
}

impl View for Picked {
    type V = PickedSeq;

    open spec fn view(&self) -> PickedSeq {
        PickedSeq { ids: self.ids@, bufs: bufs_view(self.bufs@), dims: self.dims@ }
    }
}

impl Picked {
    /// Whether there are buffers for all columns, and every row has its place in those of the
    /// columns that are collected by place.
    pub open spec fn fits(self, schema: OnDemandSchema, needed: Seq<bool>, in_order: bool, n: int) -> bool {
        &&& self.ids@.len() == n
        &&& self.bufs@.len() == schema.columns@.len()
        &&& self.dims@.len() == schema.columns@.len()
        &&& forall|i: int|
            0 <= i < schema.columns@.len() && needed[i] && !(in_order && slot_of(schema.kind(i))
                == Slot::Text) ==> (#[trigger] self.bufs@[i])@.len() == n
    }
}

/// Nothing collected yet. Texts are collected in order where `in_order`, else by place like the
/// rest.
pub open spec fn picked_start(
    schema: OnDemandSchema,
    needed: Seq<bool>,
    in_order: bool,
    n: int,
) -> PickedSeq {
    PickedSeq {
        ids: Seq::new(n as nat, |i: int| 0i64),
        bufs: Seq::new(
            schema.columns@.len(),
            |i: int|
                if needed[i] && !(in_order && slot_of(schema.kind(i)) == Slot::Text) {
                    no_cells(n)
                } else {
                    Seq::empty()
                },
        ),
        dims: Seq::new(schema.columns@.len(), |i: int| 0u32),
    }
}

pub(crate) fn get_picked_start(
    schema: &OnDemandSchema,
    needed: &Vec<bool>,
    in_order: bool,
    n: usize,
) -> (r: Picked)
    requires
        needed@.len() == schema.columns@.len(),
    ensures
        r@ == picked_start(*schema, needed@, in_order, n as int),
        r.fits(*schema, needed@, in_order, n as int),
{
    let mut ids: Vec<i64> = Vec::with_capacity(n);
    let mut i: usize = 0;
    while i < n
        invariant
            i <= n,
            ids@ =~= Seq::new(i as nat, |i: int| 0i64),
        decreases n - i,
    {
        ids.push(0);
        i = i + 1;
    }
    let ghost want = picked_start(*schema, needed@, in_order, n as int);
    let mut bufs: Vec<Vec<Option<Cell>>> = Vec::with_capacity(schema.columns.len());
    let mut dims: Vec<u32> = Vec::with_capacity(schema.columns.len());
    let mut k: usize = 0;
    while k < schema.columns.len()
        invariant
            k <= schema.columns@.len(),
            needed@.len() == schema.columns@.len(),
            want == picked_start(*schema, needed@, in_order, n as int),
            bufs@.len() == k,
            dims@ =~= Seq::new(k as nat, |i: int| 0u32),
            forall|j: int| 0 <= j < k ==> cells_view((#[trigger] bufs@[j])@) == want.bufs[j],
            forall|j: int|
                0 <= j < k && needed@[j] && !(in_order && slot_of(schema.kind(j)) == Slot::Text)
                    ==> (#[trigger] bufs@[j])@.len() == n,
        decreases schema.columns@.len() - k,
    {
        if needed[k] && !(in_order && get_slot(schema.columns[k].1) == Slot::Text) {
            bufs.push(get_no_cells(n));
        } else {
            let none: Vec<Option<Cell>> = Vec::new();
            assert(cells_view(none@) =~= Seq::empty());
            bufs.push(none);
        }
        dims.push(0);
        k = k + 1;
    }
    proof {
        assert(bufs_view(bufs@) =~= want.bufs);
        assert(dims@ =~= want.dims);
    }
    Picked { ids, bufs, dims }
}

/// Identifiers put at their places, the last one first.
pub open spec fn placed_row_ids(
    body: Seq<u8>,
    min_id: u64,
    ids: u8,
    hits: HitsSeq,
    acc: Seq<i64>,
    k: int,
) -> Seq<i64>
    decreases k,
{
    if k <= 0 {
        acc
    } else {
        let before = placed_row_ids(body, min_id, ids, hits, acc, k - 1);
        match id_at(body, min_id, ids, hits.rows[k - 1] as int) {
            None => before,
            Some(id) => before.update(hits.outs[k - 1] as int, signed(id) as i64),
        }
    }
}

pub(crate) fn put_row_ids(body: &[u8], min_id: u64, ids: u8, hits: &Hits, acc: &mut Vec<i64>)
    requires
        hits.outs@.len() == hits.rows@.len(),
        forall|j: int| 0 <= j < hits.outs@.len() ==> #[trigger] hits.outs@[j] < old(acc)@.len(),
        forall|j: int| 0 <= j < hits.rows@.len() ==> #[trigger] hits.rows@[j] <= u32::MAX,
    ensures
        final(acc)@.len() == old(acc)@.len(),
        final(acc)@ == placed_row_ids(
            body@,
            min_id,
            ids,
            hits@,
            old(acc)@,
            hits.rows@.len() as int,
        ),
{
    let ghost start = acc@;
    let mut k: usize = 0;
    while k < hits.rows.len()
        invariant
            k <= hits.rows@.len(),
            start == old(acc)@,
            hits.outs@.len() == hits.rows@.len(),
            acc@.len() == start.len(),
            forall|j: int| 0 <= j < hits.outs@.len() ==> #[trigger] hits.outs@[j] < start.len(),
            forall|j: int| 0 <= j < hits.rows@.len() ==> #[trigger] hits.rows@[j] <= u32::MAX,
            acc@ == placed_row_ids(body@, min_id, ids, hits@, start, k as int),
        decreases hits.rows@.len() - k,
    {
        assert(hits.rows@[k as int] <= u32::MAX);
        assert(hits.outs@[k as int] < start.len());
        if let Some(id) = rg_id_at(body, min_id, ids, hits.rows[k] as u32) {
            acc.set(hits.outs[k], as_signed(id));
        }
        k = k + 1;
    }
}

/// A collection with values for one column: in order, or by place.
pub open spec fn with_cells(
    schema: OnDemandSchema,
    in_order: bool,
    st: PickedSeq,
    hits: HitsSeq,
    ci: int,
    cells: Seq<Option<CellSeq>>,
) -> PickedSeq {
    PickedSeq {
        bufs: st.bufs.update(
            ci,
            if in_order && slot_of(schema.kind(ci)) == Slot::Text {
                st.bufs[ci] + cells
            } else {
                placed(st.bufs[ci], hits.outs, cells)
            },
        ),
        ..st
    }
}

pub(crate) fn add_cells(
    schema: &OnDemandSchema,
    Ghost(needed): Ghost<Seq<bool>>,
    in_order: bool,
    n: usize,
    st: &mut Picked,
    hits: &Hits,
    ci: usize,
    cells: Vec<Option<Cell>>,
)
    requires
        old(st).fits(*schema, needed, in_order, n as int),
        ci < schema.columns@.len(),
        needed[ci as int],
        cells@.len() == hits.outs@.len(),
        forall|j: int| 0 <= j < hits.outs@.len() ==> #[trigger] hits.outs@[j] < n,
    ensures
        final(st).fits(*schema, needed, in_order, n as int),
        final(st)@ == with_cells(
            *schema,
            in_order,
            old(st)@,
            hits@,
            ci as int,
            cells_view(cells@),
        ),
{
    let ghost was = *st;
    let ghost prior = st.bufs@;
    let ghost add = cells_view(cells@);
    let mut cells: Vec<Option<Cell>> = cells;
    let mut buf: Vec<Option<Cell>> = st.bufs.remove(ci);
    let ghost had = cells_view(buf@);
    assert(had == was@.bufs[ci as int]);
    if in_order && get_slot(schema.columns[ci].1) == Slot::Text {
        buf.append(&mut cells);
        assert(cells_view(buf@) =~= had + add);
    } else {
        put_cells(&mut buf, &hits.outs, cells);
    }
    let ghost now = buf;
    st.bufs.insert(ci, buf);
    proof {
        assert(st.bufs@ =~= prior.update(ci as int, now));
        let want = with_cells(*schema, in_order, was@, hits@, ci as int, add);
        assert(bufs_view(st.bufs@) =~= want.bufs);
    }
}

/// The positions of the columns from `ci` on in a body, which is walked over from `pos` on.
pub open spec fn walked_offsets<C: ColumnCodec>(
    c: C,
    schema: OnDemandSchema,
    body: Seq<u8>,
    bm: int,
    acc: Seq<u32>,
    ci: int,
    pos: int,
) -> Option<Seq<u32>>
    decreases schema.columns@.len() - ci,
{
    if ci >= schema.columns@.len() {
        Some(acc)
    } else if pos + bm > body.len() {
        None
    } else {
        match c.extent(true, tail(body, pos + bm), schema.kind(ci)) {
            None => None,
            Some(n) => walked_offsets(
                c,
                schema,
                body,
                bm,
                acc.push((pos % 0x1_0000_0000) as u32),
                ci + 1,
                pos + bm + n,
            ),
        }
    }
}

fn walk_offsets<C: ColumnCodec>(
    c: &C,
    schema: &OnDemandSchema,
    body: &[u8],
    bm: u64,
    start: u64,
) -> (r: Option<Vec<u32>>)
    ensures
        match r {
            None => walked_offsets(
                *c,
                *schema,
                body@,
                bm as int,
                Seq::empty(),
                0,
                start as int,
            ) is None,
            Some(v) => walked_offsets(
                *c,
                *schema,
                body@,
                bm as int,
                Seq::empty(),
                0,
                start as int,
            ) == Some(v@) && v@.len() == schema.columns@.len(),
        },
{
    let ghost want = walked_offsets(
        *c,
        *schema,
        body@,
        bm as int,
        Seq::empty(),
        0,
        start as int,
    );
    let mut out: Vec<u32> = Vec::with_capacity(schema.columns.len());
    let mut pos: u64 = start;
    let mut ci: usize = 0;
    assert(out@ =~= Seq::empty());
    while ci < schema.columns.len()
        invariant
            ci <= schema.columns@.len(),
            out@.len() == ci,
            want == walked_offsets(
                *c,
                *schema,
                body@,
                bm as int,
                Seq::empty(),
                0,
                start as int,
            ),
            want == walked_offsets(
                *c,
                *schema,
                body@,
                bm as int,
                out@,
                ci as int,
                pos as int,
            ),
        decreases schema.columns@.len() - ci,
    {
        if pos as u128 + bm as u128 > body.len() as u128 {
            return None;
        }
        let at: usize = (pos + bm) as usize;
        match c.skip_column(true, get_tail(body, at), schema.columns[ci].1) {
            None => {
                return None;
            },
            Some(n) => {
                out.push((pos % 0x1_0000_0000) as u32);
                if n > body.len() - at {
                    if ci + 1 < schema.columns.len() {
                        assert(walked_offsets(
                            *c,
                            *schema,
                            body@,
                            bm as int,
                            out@,
                            ci + 1,
                            at + n,
                        ) is None);
                        return None;
                    }
                    return Some(out);
                }
                pos = (at + n) as u64;
            },
        }
        ci = ci + 1;
    }
    Some(out)
}

/// The positions of the columns of row group `i`, where it is neither compressed nor untagged: on
/// record, else found by walking over them.
pub open spec fn quick_offsets<C: ColumnCodec>(c: C, f: V4Footer, file: Seq<u8>, i: int) -> Option<
    Seq<u32>,
> {
    let meta = f.row_groups@[i];
    match stored_group(meta, file) {
        Err(_) => None,
        Ok(s) => if s[28] != RG_COMPRESS_NONE || s[29] < 1 {
            None
        } else if i < f.col_offsets@.len() && f.col_offsets@[i]@.len() >= f.schema.columns@.len() {
            Some(f.col_offsets@[i]@)
        } else {
            let rows = meta.row_count as int;
            walked_offsets(
                c,
                f.schema,
                tail(s, 32),
                bitmap_len(rows),
                Seq::empty(),
                0,
                id_section(rows, s[30]) + bitmap_len(rows),
            )
        },
    }
}

fn get_quick_offsets<C: ColumnCodec>(c: &C, f: &V4Footer, file: &[u8], i: usize) -> (r: Option<
    Vec<u32>,
>)
    requires
        i < f.row_groups@.len(),
    ensures
        match r {
            None => quick_offsets(*c, *f, file@, i as int) is None,
            Some(v) => quick_offsets(*c, *f, file@, i as int) == Some(v@) && v@.len()
                >= f.schema.columns@.len(),
        },
{
    let meta: RowGroupMeta = f.row_groups[i];
    let s: &[u8] = match get_stored(&meta, file) {
        Err(_) => {
            return None;
        },
        Ok(s) => s,
    };
    if s[28] != RG_COMPRESS_NONE || s[29] < 1 {
        return None;
    }
    if i < f.col_offsets.len() && f.col_offsets[i].len() >= f.schema.columns.len() {
        return Some(vstd::slice::slice_to_vec(f.col_offsets[i].as_slice()));
    }
    let bm: u64 = rg_bitmap_len(meta.row_count);
    walk_offsets(
        c,
        &f.schema,
        get_tail(s, 32),
        bm,
        rg_id_section_len(meta.row_count, s[30]) + bm,
    )
}

/// Whether the values of a column can be read where they stand, without decoding it.
pub open spec fn is_simple(kind: ColumnType) -> bool {
    is_int(kind) || is_float(kind) || kind is String || kind is StringDict || kind is Bool
}

fn test_simple(kind: ColumnType) -> (r: bool)
    ensures
        r == is_simple(kind),
{
    kind.is_int() || kind.is_float() || kind == ColumnType::String || kind
        == ColumnType::StringDict || kind == ColumnType::Bool
}

/// The number of columns that are asked for, among the first `k`.
pub open spec fn needed_count(needed: Seq<bool>, k: int) -> int
    decreases k,
{
    if k <= 0 {
        0
    } else {
        needed_count(needed, k - 1) + (if needed[k - 1] {
            1int
        } else {
            0
        })
    }
}

/// Whether rows are read column by column where they stand: many rows of at least two columns, all
/// of them simple, in row groups whose columns have known positions.
pub open spec fn goes_quick<C: ColumnCodec>(
    c: C,
    f: V4Footer,
    file: Seq<u8>,
    needed: Seq<bool>,
    hits: Seq<HitsSeq>,
    n: int,
) -> bool {
    &&& needed_count(needed, needed.len() as int) >= 2
    &&& n >= 500
    &&& forall|ci: int|
        0 <= ci < needed.len() && #[trigger] needed[ci] ==> is_simple(f.schema.kind(ci))
    &&& forall|i: int|
        0 <= i < hits.len() && (#[trigger] hits[i]).rows.len() > 0 ==> quick_offsets(
            c,
            f,
            file,
            i,
        ) is Some
}

pub(crate) fn do_go_quick<C: ColumnCodec>(
    c: &C,
    f: &V4Footer,
    file: &[u8],
    needed: &Vec<bool>,
    hits: &Vec<Hits>,
    n: usize,
) -> (r: bool)
    requires
        needed@.len() == f.schema.columns@.len(),
        hits@.len() == f.row_groups@.len(),
    ensures
        r == goes_quick(*c, *f, file@, needed@, hits_view(hits@), n as int),
{
    let mut count: usize = 0;
    let mut simple: bool = true;
    let mut ci: usize = 0;
    while ci < needed.len()
        invariant
            ci <= needed@.len(),
            needed@.len() == f.schema.columns@.len(),
            count == needed_count(needed@, ci as int),
            count <= ci,
            simple == forall|k: int|
                0 <= k < ci && #[trigger] needed@[k] ==> is_simple(f.schema.kind(k)),
        decreases needed@.len() - ci,
    {
        if needed[ci] {
            count = count + 1;
            if !test_simple(f.schema.columns[ci].1) {
                assert(needed@[ci as int]);
                simple = false;
            }
        }
        ci = ci + 1;
    }
    if count < 2 || n < 500 || !simple {
        return false;
    }
    let mut i: usize = 0;
    while i < hits.len()
        invariant
            i <= hits@.len(),
            hits@.len() == f.row_groups@.len(),
            forall|k: int|
                0 <= k < i && (#[trigger] hits_view(hits@)[k]).rows.len() > 0 ==> quick_offsets(
                    *c,
                    *f,
                    file@,
                    k,
                ) is Some,
        decreases hits@.len() - i,
    {
        assert(hits_view(hits@)[i as int] == hits@[i as int]@);
        if hits[i].rows.len() > 0 {
            if get_quick_offsets(c, f, file, i).is_none() {
                return false;
            }
        }
        i = i + 1;
    }
    true
}

/// The values of rows of one column, read where they stand; nothing where they cannot be.
pub open spec fn quick_cells<C: ColumnCodec>(
    c: C,
    kind: ColumnType,
    version: u8,
    body: Seq<u8>,
    bm: int,
    at: int,
    rows: Seq<usize>,
) -> Result<Seq<Option<CellSeq>>, ScanError> {
    match window(body, at, bm) {
        None => Ok(no_cells(rows.len() as int)),
        Some(nulls) => {
            let col = tail(body, at + bm);
            if col.len() == 0 {
                Ok(no_cells(rows.len() as int))
            } else {
                match pick(c, kind, version, col) {
                    PickSeq::From(src) => cells_of(src, slot_of(kind), true, nulls, rows),
                    _ => Ok(no_cells(rows.len() as int)),
                }
            }
        },
    }
}

fn get_quick_cells<C: ColumnCodec>(
    c: &C,
    kind: ColumnType,
    version: u8,
    body: &[u8],
    bm: u64,
    at: u32,
    rows: &Vec<usize>,
) -> (r: Result<Vec<Option<Cell>>, ScanError>)
    ensures
        cells_result(r) == quick_cells(*c, kind, version, body@, bm as int, at as int, rows@),
        r matches Ok(v) ==> v@.len() == rows@.len(),
{
    let nulls: &[u8] = match get_window(body, at as u64, bm) {
        None => {
            return Ok(get_no_cells(rows.len()));
        },
        Some(w) => w,
    };
    let col: &[u8] = get_tail(body, (at as u64 + bm) as usize);
    if col.len() == 0 {
        return Ok(get_no_cells(rows.len()));
    }
    match get_pick(c, kind, version, col) {
        Pick::From(src) => get_cells(&src, get_slot(kind), true, nulls, rows),
        _ => Ok(get_no_cells(rows.len())),
    }
}

/// A collection with the values of the columns from `ci` on of one row group, each read at its
/// position.
pub open spec fn quick_columns<C: ColumnCodec>(
    c: C,
    schema: OnDemandSchema,
    needed: Seq<bool>,
    version: u8,
    body: Seq<u8>,
    bm: int,
    offsets: Seq<u32>,
    hits: HitsSeq,
    st: PickedSeq,
    ci: int,
) -> Result<PickedSeq, ScanError>
    decreases schema.columns@.len() - ci,
{
    if ci >= schema.columns@.len() {
        Ok(st)
    } else if !needed[ci] {
        quick_columns(c, schema, needed, version, body, bm, offsets, hits, st, ci + 1)
    } else {
        match quick_cells(c, schema.kind(ci), version, body, bm, offsets[ci] as int, hits.rows) {
            Err(e) => Err(e),
            Ok(cells) => quick_columns(
                c,
                schema,
                needed,
                version,
                body,
                bm,
                offsets,
                hits,
                with_cells(schema, false, st, hits, ci, cells),
                ci + 1,
            ),
        }
    }
}

/// What a step of a collection comes to.
pub open spec fn picked_is(
    r: Result<(), ScanError>,
    now: PickedSeq,
    want: Result<PickedSeq, ScanError>,
) -> bool {
    match r {
        Err(e) => want == Err::<PickedSeq, ScanError>(e),
        Ok(_) => want == Ok::<PickedSeq, ScanError>(now),
    }
}

fn add_quick_columns<C: ColumnCodec>(
    c: &C,
    schema: &OnDemandSchema,
    needed: &Vec<bool>,
    version: u8,
    body: &[u8],
    bm: u64,
    offsets: &Vec<u32>,
    hits: &Hits,
    n: usize,
    st: &mut Picked,
) -> (r: Result<(), ScanError>)
    requires
        needed@.len() == schema.columns@.len(),
        offsets@.len() >= schema.columns@.len(),
        old(st).fits(*schema, needed@, false, n as int),
        hits.outs@.len() == hits.rows@.len(),
        forall|j: int| 0 <= j < hits.outs@.len() ==> #[trigger] hits.outs@[j] < n,
    ensures
        final(st).fits(*schema, needed@, false, n as int),
        picked_is(
            r,
            final(st)@,
            quick_columns(
                *c,
                *schema,
                needed@,
                version,
                body@,
                bm as int,
                offsets@,
                hits@,
                old(st)@,
                0,
            ),
        ),
{
    let ghost want = quick_columns(
        *c,
        *schema,
        needed@,
        version,
        body@,
        bm as int,
        offsets@,
        hits@,
        st@,
        0,
    );
    let mut ci: usize = 0;
    while ci < schema.columns.len()
        invariant
            ci <= schema.columns@.len(),
            needed@.len() == schema.columns@.len(),
            offsets@.len() >= schema.columns@.len(),
            st.fits(*schema, needed@, false, n as int),
            hits.outs@.len() == hits.rows@.len(),
            forall|j: int| 0 <= j < hits.outs@.len() ==> #[trigger] hits.outs@[j] < n,
            want == quick_columns(
                *c,
                *schema,
                needed@,
                version,
                body@,
                bm as int,
                offsets@,
                hits@,
                old(st)@,
                0,
            ),
            want == quick_columns(
                *c,
                *schema,
                needed@,
                version,
                body@,
                bm as int,
                offsets@,
                hits@,
                st@,
                ci as int,
            ),
        decreases schema.columns@.len() - ci,
    {
        if needed[ci] {
            match get_quick_cells(
                c,
                schema.columns[ci].1,
                version,
                body,
                bm,
                offsets[ci],
                &hits.rows,
            ) {
                Err(e) => {
                    return Err(e);
                },
                Ok(cells) => {
                    add_cells(schema, Ghost(needed@), false, n, st, hits, ci, cells);
                },
            }
        }
        ci = ci + 1;
    }
    Ok(())
}

/// What is collected from the first `k` row groups, read where the values stand.
pub open spec fn quick_upto<C: ColumnCodec>(
    c: C,
    f: V4Footer,
    file: Seq<u8>,
    needed: Seq<bool>,
    hits: Seq<HitsSeq>,
    n: int,
    k: int,
) -> Result<PickedSeq, ScanError>
    decreases k,
{
    if k <= 0 {
        Ok(picked_start(f.schema, needed, false, n))
    } else {
        match quick_upto(c, f, file, needed, hits, n, k - 1) {
            Err(e) => Err(e),
            Ok(st) => if hits[k - 1].rows.len() == 0 {
                Ok(st)
            } else {
                let meta = f.row_groups@[k - 1];
                let s = stored_group(meta, file)->Ok_0;
                let body = tail(s, 32);
                quick_columns(
                    c,
                    f.schema,
                    needed,
                    s[29],
                    body,
                    bitmap_len(meta.row_count as int),
                    quick_offsets(c, f, file, k - 1)->0,
                    hits[k - 1],
                    PickedSeq {
                        ids: placed_row_ids(
                            body,
                            meta.min_id,
                            s[30],
                            hits[k - 1],
                            st.ids,
                            hits[k - 1].rows.len() as int,
                        ),
                        ..st
                    },
                    0,
                )
            },
        }
    }
}

proof fn quick_upto_failed<C: ColumnCodec>(
    c: C,
    f: V4Footer,
    file: Seq<u8>,
    needed: Seq<bool>,
    hits: Seq<HitsSeq>,
    n: int,
    j: int,
    k: int,
)
    requires
        0 <= j <= k,
        quick_upto(c, f, file, needed, hits, n, j) is Err,
    ensures
        quick_upto(c, f, file, needed, hits, n, k) == quick_upto(c, f, file, needed, hits, n, j),
    decreases k,
{
    if j < k {
        quick_upto_failed(c, f, file, needed, hits, n, j, k - 1);
    }
}

pub(crate) fn pick_quick<C: ColumnCodec>(
    c: &C,
    f: &V4Footer,
    file: &[u8],
    needed: &Vec<bool>,
    hits: &Vec<Hits>,
    n: usize,
) -> (r: Result<Picked, ScanError>)
    requires
        needed@.len() == f.schema.columns@.len(),
        hits_fit(f.row_groups@, hits_view(hits@), n as int),
        goes_quick(*c, *f, file@, needed@, hits_view(hits@), n as int),
    ensures
        ({
            let want = quick_upto(
                *c,
                *f,
                file@,
                needed@,
                hits_view(hits@),
                n as int,
                hits@.len() as int,
            );
            match r {
                Err(e) => want == Err::<PickedSeq, ScanError>(e),
                Ok(st) => want == Ok::<PickedSeq, ScanError>(st@) && st.fits(
                    f.schema,
                    needed@,
                    false,
                    n as int,
                ),
            }
        }),
{
    let ghost hv = hits_view(hits@);
    let mut st: Picked = get_picked_start(&f.schema, needed, false, n);
    let mut i: usize = 0;
    while i < hits.len()
        invariant
            i <= hits@.len(),
            needed@.len() == f.schema.columns@.len(),
            hv == hits_view(hits@),
            hits_fit(f.row_groups@, hv, n as int),
            goes_quick(*c, *f, file@, needed@, hv, n as int),
            st.fits(f.schema, needed@, false, n as int),
            quick_upto(*c, *f, file@, needed@, hv, n as int, i as int) == Ok::<
                PickedSeq,
                ScanError,
            >(st@),
        decreases hits@.len() - i,
    {
        assert(hv[i as int] == hits@[i as int]@);
        let h: &Hits = &hits[i];
        if h.rows.len() > 0 {
            let meta: RowGroupMeta = f.row_groups[i];
            if let Ok(s) = get_stored(&meta, file) {
                if let Some(offsets) = get_quick_offsets(c, f, file, i) {
                    let body: &[u8] = get_tail(s, 32);
                    let ghost was = st@;
                    proof {
                        assert forall|j: int| 0 <= j < h.outs@.len() implies #[trigger] h.outs@[j]
                            < n by {
                            assert(hv[i as int].outs[j] < n);
                        }
                        assert forall|j: int| 0 <= j < h.rows@.len() implies #[trigger] h.rows@[j]
                            <= u32::MAX by {
                            assert(hv[i as int].rows[j] < f.row_groups@[i as int].row_count);
                        }
                    }
                    put_row_ids(body, meta.min_id, s[30], h, &mut st.ids);
                    assert(st@ =~= PickedSeq { ids: st.ids@, ..was });
                    let bm: u64 = rg_bitmap_len(meta.row_count);
                    match add_quick_columns(
                        c,
                        &f.schema,
                        needed,
                        s[29],
                        body,
                        bm,
                        &offsets,
                        h,
                        n,
                        &mut st,
                    ) {
                        Err(e) => {
                            proof {
                                quick_upto_failed(
                                    *c,
                                    *f,
                                    file@,
                                    needed@,
                                    hv,
                                    n as int,
                                    i + 1,
                                    hits@.len() as int,
                                );
                            }
                            return Err(e);
                        },
                        Ok(_) => {},
                    }
                }
            }
        }
        i = i + 1;
    }
    Ok(st)
}

} // verus!
