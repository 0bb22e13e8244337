//! Rows by identifier.

use vstd::prelude::*;

use crate::batch::{get_span, span};
use crate::bytes::{as_signed, bit, signed, test_bit};
use crate::codec::ColumnCodec;
use crate::group::{
    get_stored, get_tail, id_at, id_section, rg_id_at, rg_id_section_len, stored_group, tail,
};
use crate::ids::{bisect_ids, search_ids};
use crate::model::{
    OnDemandSchema, RowGroupMeta, ScanError, V4Footer, RG_COMPRESS_NONE, RG_IDS_IMPLICIT_CONTIGUOUS,
};
use crate::retrieve::{
    add_batch_columns, batch_answer, batch_columns_view, batch_group_columns, batch_start,
    batch_step_is, get_batch_start, make_batch_answer, make_no_rows, mark_rows, marked, no_rows,
    BatchColumnsSeq, BatchSt, BatchState, FoundRows, FoundRowsSeq, MmapBatchColumns,
};
use crate::storage::OnDemandStorage;

verus! {

/// The row group that can hold `id`, among those from `i` on: the first one with rows whose largest
/// identifier is not below it, where its smallest one is not above it.
pub open spec fn home_from(groups: Seq<RowGroupMeta>, id: u64, i: int) -> Option<usize>
    decreases groups.len() - i,
{
    if i >= groups.len() {
        None
    } else if groups[i].row_count > 0 && groups[i].max_id >= id {
        if groups[i].min_id <= id {
            Some(i as usize)
        } else {
            None
        }
    } else {
        home_from(groups, id, i + 1)
    }
}

/// The row group that can hold `id`.
pub open spec fn home(groups: Seq<RowGroupMeta>, id: u64) -> Option<usize> {
    home_from(groups, id, 0)
}

fn find_home(groups: &Vec<RowGroupMeta>, id: u64) -> (r: Option<usize>)
    ensures
        r == home(groups@, id),
{
    let mut i: usize = 0;
    while i < groups.len()
        invariant
            i <= groups@.len(),
            home(groups@, id) == home_from(groups@, id, i as int),
        decreases groups@.len() - i,
    {
        if groups[i].row_count > 0 && groups[i].max_id >= id {
            return if groups[i].min_id <= id {
                Some(i)
            } else {
                None
            };
        }
        i = i + 1;
    }
    None
}

/// The row groups that can hold some identifiers.
pub open spec fn homes(groups: Seq<RowGroupMeta>, ids: Seq<u64>) -> Seq<Option<usize>> {
    Seq::new(ids.len(), |k: int| home(groups, ids[k]))
}

fn find_homes(groups: &Vec<RowGroupMeta>, ids: &[u64]) -> (r: Vec<Option<usize>>)
    ensures
        r@ == homes(groups@, ids@),
{
    let mut out: Vec<Option<usize>> = Vec::with_capacity(ids.len());
    let mut k: usize = 0;
    while k < ids.len()
        invariant
            k <= ids.len(),
            out@ =~= homes(groups@, ids@).take(k as int),
        decreases ids.len() - k,
    {
        out.push(find_home(groups, ids[k]));
        k = k + 1;
    }
    assert(homes(groups@, ids@).take(ids@.len() as int) =~= homes(groups@, ids@));
    out
}

/// Those of the first `k` identifiers that belong to row group `i`.
pub open spec fn outs_in(homes: Seq<Option<usize>>, i: int, k: int) -> Seq<usize>
    decreases k,
{
    if k <= 0 {
        Seq::empty()
    } else if homes[k - 1] == Some(i as usize) {
        outs_in(homes, i, k - 1).push((k - 1) as usize)
    } else {
        outs_in(homes, i, k - 1)
    }
}

fn find_outs(homes: &Vec<Option<usize>>, i: usize) -> (r: Vec<usize>)
    ensures
        r@ == outs_in(homes@, i as int, homes@.len() as int),
        forall|j: int| 0 <= j < r@.len() ==> #[trigger] r@[j] < homes@.len(),
        forall|j: int| 0 <= j < r@.len() ==> homes@[#[trigger] r@[j] as int] == Some(i),
{
    let mut out: Vec<usize> = Vec::new();
    let mut k: usize = 0;
    assert(out@ =~= Seq::empty());
    while k < homes.len()
        invariant
            k <= homes@.len(),
            out@ == outs_in(homes@, i as int, k as int),
            forall|j: int| 0 <= j < out@.len() ==> #[trigger] out@[j] < k,
            forall|j: int| 0 <= j < out@.len() ==> homes@[#[trigger] out@[j] as int] == Some(i),
        decreases homes@.len() - k,
    {
        match homes[k] {
            Some(h) => {
                if h == i {
                    out.push(k);
                }
            },
            None => {},
        }
        k = k + 1;
    }
    out
}

/// The row of a row group that holds `id`: the one at its distance from the smallest identifier, else
/// one that a search finds.
pub open spec fn local_row(meta: RowGroupMeta, body: Seq<u8>, ids: u8, id: u64) -> Option<int> {
    let rows = meta.row_count as int;
    let guess = id - meta.min_id;
    let searched = if ids == RG_IDS_IMPLICIT_CONTIGUOUS {
        None
    } else {
        bisect_ids(body, 0, rows, id)
    };
    if guess < rows {
        match id_at(body, meta.min_id, ids, guess) {
            None => None,
            Some(there) => if there == id {
                Some(guess)
            } else {
                searched
            },
        }
    } else {
        searched
    }
}

fn find_local_row(meta: &RowGroupMeta, body: &[u8], ids: u8, id: u64) -> (r: Option<u32>)
    requires
        meta.min_id <= id,
        id_section(meta.row_count as int, ids) <= body.len(),
    ensures
        match r {
            None => local_row(*meta, body@, ids, id) is None,
            Some(k) => local_row(*meta, body@, ids, id) == Some(k as int),
        },
{
    let rows: u32 = meta.row_count;
    let guess: u64 = id - meta.min_id;
    if guess < rows as u64 {
        match rg_id_at(body, meta.min_id, ids, guess as u32) {
            None => {
                return None;
            },
            Some(there) => {
                if there == id {
                    return Some(guess as u32);
                }
            },
        }
    }
    if ids == RG_IDS_IMPLICIT_CONTIGUOUS {
        return None;
    }
    search_ids(body, rows, id)
}

/// The row of a row group that holds `id`, where it is not deleted.
pub open spec fn live_row(meta: RowGroupMeta, body: Seq<u8>, ids: u8, id: u64) -> Option<int> {
    let section = id_section(meta.row_count as int, ids);
    match local_row(meta, body, ids, id) {
        None => None,
        Some(row) => if section + row / 8 >= body.len() || bit(tail(body, section), row) {
            None
        } else {
            Some(row)
        },
    }
}

fn find_live_row(meta: &RowGroupMeta, body: &[u8], ids: u8, id: u64) -> (r: Option<u32>)
    requires
        meta.min_id <= id,
        id_section(meta.row_count as int, ids) <= body.len(),
    ensures
        match r {
            None => live_row(*meta, body@, ids, id) is None,
            Some(k) => live_row(*meta, body@, ids, id) == Some(k as int),
        },
{
    let section: u64 = rg_id_section_len(meta.row_count, ids);
    match find_local_row(meta, body, ids, id) {
        None => None,
        Some(row) => {
            if section + (row / 8) as u64 >= body.len() as u64 {
                return None;
            }
            if test_bit(get_tail(body, section as usize), row as usize) {
                return None;
            }
            Some(row)
        },
    }
}

/// Those of the first `k` identifiers that belong to live rows.
pub open spec fn live_ids(
    meta: RowGroupMeta,
    body: Seq<u8>,
    enc: u8,
    ids: Seq<u64>,
    outs: Seq<usize>,
    k: int,
) -> FoundRowsSeq
    decreases k,
{
    if k <= 0 {
        FoundRowsSeq { outs: Seq::empty(), rows: Seq::empty(), ids: Seq::empty() }
    } else {
        let before = live_ids(meta, body, enc, ids, outs, k - 1);
        let id = ids[outs[k - 1] as int];
        match live_row(meta, body, enc, id) {
            None => before,
            Some(row) => FoundRowsSeq {
                outs: before.outs.push(outs[k - 1]),
                rows: before.rows.push(row as usize),
                ids: before.ids.push(signed(id as int) as i64),
            },
        }
    }
}

fn find_live_ids(meta: &RowGroupMeta, body: &[u8], enc: u8, ids: &[u64], outs: &Vec<usize>) -> (r:
    FoundRows)
    requires
        id_section(meta.row_count as int, enc) <= body.len(),
        forall|j: int| 0 <= j < outs@.len() ==> #[trigger] outs@[j] < ids@.len(),
        forall|j: int|
            0 <= j < outs@.len() ==> meta.min_id <= ids@[#[trigger] outs@[j] as int],
    ensures
        r@ == live_ids(*meta, body@, enc, ids@, outs@, outs@.len() as int),
        r.fits(ids@.len() as int),
{
    let mut out: FoundRows = FoundRows { outs: Vec::new(), rows: Vec::new(), ids: Vec::new() };
    let mut k: usize = 0;
    while k < outs.len()
        invariant
            k <= outs@.len(),
            id_section(meta.row_count as int, enc) <= body.len(),
            forall|j: int| 0 <= j < outs@.len() ==> #[trigger] outs@[j] < ids@.len(),
            forall|j: int|
                0 <= j < outs@.len() ==> meta.min_id <= ids@[#[trigger] outs@[j] as int],
            out@ =~= live_ids(*meta, body@, enc, ids@, outs@, k as int),
            out.fits(ids@.len() as int),
        decreases outs@.len() - k,
    {
        assert(outs@[k as int] < ids@.len());
        let at: usize = outs[k];
        let id: u64 = ids[at];
        if let Some(row) = find_live_row(meta, body, enc, id) {
            out.outs.push(at);
            out.rows.push(row as usize);
            out.ids.push(as_signed(id));
        }
        k = k + 1;
    }
    out
}

/// A collection after row group `i`, for rows that are asked for by identifier. `None` where the row
/// group is compressed or untagged.
pub open spec fn known_group<C: ColumnCodec>(
    c: C,
    f: V4Footer,
    file: Seq<u8>,
    cols: Seq<usize>,
    ids: Seq<u64>,
    outs: Seq<usize>,
    i: int,
    st: BatchSt,
) -> Result<Option<BatchSt>, ScanError> {
    let meta = f.row_groups@[i];
    if outs.len() == 0 {
        Ok(Some(st))
    } else {
        match stored_group(meta, file) {
            Err(ScanError::PastEof) => Err(ScanError::PastEof),
            Err(_) => Ok(Some(st)),
            Ok(s) => if s[28] != RG_COMPRESS_NONE || s[29] < 1 {
                Ok(None)
            } else {
                let body = tail(s, 32);
                if id_section(meta.row_count as int, s[30]) > body.len() {
                    Ok(Some(st))
                } else {
                    let found = live_ids(meta, body, s[30], ids, outs, outs.len() as int);
                    if found.rows.len() == 0 {
                        Ok(Some(st))
                    } else {
                        batch_group_columns(
                            c,
                            f,
                            false,
                            s[29],
                            body,
                            i,
                            cols,
                            found,
                            marked(st, found, found.outs.len() as int),
                            cols.len() as int,
                        )
                    }
                }
            },
        }
    }
}

/// A row group that can hold an identifier starts below it.
pub(crate) proof fn home_starts_below(groups: Seq<RowGroupMeta>, id: u64, i: int)
    requires
        0 <= i,
        groups.len() <= usize::MAX,
    ensures
        home_from(groups, id, i) matches Some(h) ==> h < groups.len() && groups[h as int].min_id
            <= id,
    decreases groups.len() - i,
{
    if i < groups.len() && !(groups[i].row_count > 0 && groups[i].max_id >= id) {
        home_starts_below(groups, id, i + 1);
    }
}

fn add_known_group<C: ColumnCodec>(
    c: &C,
    f: &V4Footer,
    file: &[u8],
    cols: &Vec<usize>,
    ids: &[u64],
    outs: &Vec<usize>,
    i: usize,
    st: &mut BatchState,
) -> (r: Result<bool, ScanError>)
    requires
        i < f.row_groups@.len(),
        forall|p: int| 0 <= p < cols@.len() ==> #[trigger] cols@[p] < f.schema.columns@.len(),
        old(st).fits(cols@.len() as int, ids@.len() as int),
        forall|j: int| 0 <= j < outs@.len() ==> #[trigger] outs@[j] < ids@.len(),
        forall|j: int|
            0 <= j < outs@.len() ==> f.row_groups@[i as int].min_id <= ids@[#[trigger] outs@[j] as int],
    ensures
        final(st).fits(cols@.len() as int, ids@.len() as int),
        batch_step_is(
            r,
            final(st)@,
            known_group(*c, *f, file@, cols@, ids@, outs@, i as int, old(st)@),
        ),
{
    let meta: RowGroupMeta = f.row_groups[i];
    if outs.len() == 0 {
        return Ok(true);
    }
    let s: &[u8] = match get_stored(&meta, file) {
        Err(ScanError::PastEof) => {
            return Err(ScanError::PastEof);
        },
        Err(_) => {
            return Ok(true);
        },
        Ok(s) => s,
    };
    if s[28] != RG_COMPRESS_NONE || s[29] < 1 {
        return Ok(false);
    }
    let body: &[u8] = get_tail(s, 32);
    if rg_id_section_len(meta.row_count, s[30]) > body.len() as u64 {
        return Ok(true);
    }
    let found: FoundRows = find_live_ids(&meta, body, s[30], ids, outs);
    if found.rows.len() == 0 {
        return Ok(true);
    }
    let n: usize = ids.len();
    mark_rows(st, &found, Ghost(cols@.len() as int), n);
    add_batch_columns(c, f, false, s[29], body, i, cols, &found, n, st)
}

/// What is collected from the first `k` row groups, for rows that are asked for by identifier.
pub open spec fn known_upto<C: ColumnCodec>(
    c: C,
    f: V4Footer,
    file: Seq<u8>,
    cols: Seq<usize>,
    ids: Seq<u64>,
    k: int,
) -> Result<Option<BatchSt>, ScanError>
    decreases k,
{
    if k <= 0 {
        Ok(Some(batch_start(cols.len() as int, ids.len() as int)))
    } else {
        match known_upto(c, f, file, cols, ids, k - 1) {
            Ok(Some(st)) => known_group(
                c,
                f,
                file,
                cols,
                ids,
                outs_in(homes(f.row_groups@, ids), k - 1, ids.len() as int),
                k - 1,
                st,
            ),
            other => other,
        }
    }
}

proof fn known_upto_over<C: ColumnCodec>(
    c: C,
    f: V4Footer,
    file: Seq<u8>,
    cols: Seq<usize>,
    ids: Seq<u64>,
    j: int,
    k: int,
)
    requires
        0 <= j <= k,
        !(known_upto(c, f, file, cols, ids, j) matches Ok(Some(_))),
    ensures
        known_upto(c, f, file, cols, ids, k) == known_upto(c, f, file, cols, ids, j),
    decreases k,
{
    if j < k {
        known_upto_over(c, f, file, cols, ids, j, k - 1);
    }
}

/// Whether a row group that can hold one of the identifiers lacks columns on record.
pub open spec fn home_lacks(f: V4Footer, homes: Seq<Option<usize>>) -> bool {
    exists|k: int| 0 <= k < homes.len() && #[trigger] lacks_some(f, homes[k])
}

/// Whether a row group lacks columns on record.
pub open spec fn lacks_some(f: V4Footer, home: Option<usize>) -> bool {
    home matches Some(i) && (i >= f.col_offsets@.len() || f.col_offsets@[i as int]@.len()
        < f.schema.columns@.len())
}

fn test_home_lacks(f: &V4Footer, homes: &Vec<Option<usize>>) -> (r: bool)
    ensures
        r == home_lacks(*f, homes@),
{
    let mut k: usize = 0;
    while k < homes.len()
        invariant
            k <= homes@.len(),
            forall|j: int| 0 <= j < k ==> !#[trigger] lacks_some(*f, homes@[j]),
        decreases homes@.len() - k,
    {
        if let Some(i) = homes[k] {
            if i >= f.col_offsets.len() || f.col_offsets[i].len() < f.schema.columns.len() {
                assert(lacks_some(*f, homes@[k as int]));
                return true;
            }
        }
        k = k + 1;
    }
    false
}

/// Texts as sequences.
pub open spec fn wanted_view(columns: Option<&[String]>) -> Option<Seq<Seq<char>>> {
    match columns {
        None => None,
        Some(v) => Some(Seq::new(v@.len(), |i: int| v@[i]@)),
    }
}

/// The columns behind the first `k` names, `None` where the schema does not have one of them.
pub open spec fn columns_named(schema: OnDemandSchema, names: Seq<Seq<char>>, k: int) -> Option<
    Seq<usize>,
>
    decreases k,
{
    if k <= 0 {
        Some(Seq::empty())
    } else {
        match columns_named(schema, names, k - 1) {
            None => None,
            Some(before) => match schema.index_of(names[k - 1]) {
                None => None,
                Some(i) => Some(before.push(i)),
            },
        }
    }
}

proof fn columns_named_failed(schema: OnDemandSchema, names: Seq<Seq<char>>, j: int, k: int)
    requires
        0 <= j <= k,
        columns_named(schema, names, j) is None,
    ensures
        columns_named(schema, names, k) is None,
    decreases k,
{
    if j < k {
        columns_named_failed(schema, names, j, k - 1);
    }
}

/// The columns that are asked for: all of them where no names are given.
pub open spec fn columns_wanted(schema: OnDemandSchema, names: Option<Seq<Seq<char>>>) -> Option<
    Seq<usize>,
> {
    match names {
        None => Some(span(0, schema.columns@.len() as int)),
        Some(v) => columns_named(schema, v, v.len() as int),
    }
}

fn get_columns_wanted(schema: &OnDemandSchema, columns: Option<&[String]>) -> (r: Option<Vec<usize>>)
    ensures
        match r {
            None => columns_wanted(*schema, wanted_view(columns)) is None,
            Some(v) => columns_wanted(*schema, wanted_view(columns)) == Some(v@) && forall|p: int|
                0 <= p < v@.len() ==> #[trigger] v@[p] < schema.columns@.len(),
        },
{
    match columns {
        None => {
            let all: Vec<usize> = get_span(0, schema.columns.len());
            Some(all)
        },
        Some(v) => {
            let ghost texts: Seq<Seq<char>> = Seq::new(v@.len(), |i: int| v@[i]@);
            let mut out: Vec<usize> = Vec::with_capacity(v.len());
            let mut k: usize = 0;
            assert(out@ =~= Seq::empty());
            while k < v.len()
                invariant
                    k <= v.len(),
                    texts == Seq::new(v@.len(), |i: int| v@[i]@),
                    wanted_view(columns) == Some(texts),
                    columns_named(*schema, texts, k as int) == Some(out@),
                    forall|p: int| 0 <= p < out@.len() ==> #[trigger] out@[p] < schema.columns@.len(),
                decreases v.len() - k,
            {
                assert(texts[k as int] == v@[k as int]@);
                match schema.get_index(v[k].as_str()) {
                    None => {
                        proof {
                            columns_named_failed(*schema, texts, k + 1, texts.len() as int);
                        }
                        return None;
                    },
                    Some(i) => {
                        out.push(i);
                    },
                }
                k = k + 1;
            }
            Some(out)
        },
    }
}

/// Those of the first `k` identifiers that are not pending deletion.
pub open spec fn visible_ids(ids: Seq<u64>, pending: Seq<u64>, k: int) -> Seq<u64>
    decreases k,
{
    if k <= 0 {
        Seq::empty()
    } else if pending.contains(ids[k - 1]) {
        visible_ids(ids, pending, k - 1)
    } else {
        visible_ids(ids, pending, k - 1).push(ids[k - 1])
    }
}

fn has_id(pending: &[u64], id: u64) -> (r: bool)
    ensures
        r == pending@.contains(id),
{
    let mut k: usize = 0;
    while k < pending.len()
        invariant
            k <= pending.len(),
            forall|j: int| 0 <= j < k ==> pending@[j] != id,
        decreases pending.len() - k,
    {
        if pending[k] == id {
            assert(pending@[k as int] == id);
            return true;
        }
        k = k + 1;
    }
    false
}

impl<C: ColumnCodec> OnDemandStorage<C> {
    /// The live rows with the given identifiers, as columns behind their identifiers. There is no
    /// answer without a catalogue or a file, for a name that is not known, or where a row group is
    /// compressed, untagged or without columns on record.
    pub open spec fn known_rows(self, ids: Seq<u64>, names: Option<Seq<Seq<char>>>) -> Result<
        Option<BatchColumnsSeq>,
        ScanError,
    > {
        if ids.len() == 0 {
            Ok(Some(no_rows()))
        } else {
            match self.footer {
                None => Ok(None),
                Some(f) => match columns_wanted(f.schema, names) {
                    None => Ok(None),
                    Some(cols) => if home_lacks(f, homes(f.row_groups@, ids)) {
                        Ok(None)
                    } else {
                        match self.file {
                            None => Ok(None),
                            Some(file) => match known_upto(
                                self.codec,
                                f,
                                file@,
                                cols,
                                ids,
                                f.row_groups@.len() as int,
                            ) {
                                Err(e) => Err(e),
                                Ok(None) => Ok(None),
                                Ok(Some(st)) => Ok(Some(batch_answer(f.schema, cols, true, st))),
                            },
                        }
                    },
                },
            }
        }
    }

    /// Reads the live rows with the given identifiers.
    fn retrieve_many_mmap_columns_impl(&self, ids: &[u64], columns: Option<&[String]>) -> (r: Result<
        Option<MmapBatchColumns>,
        ScanError,
    >)
        ensures
            batch_columns_view(r) == self.known_rows(ids@, wanted_view(columns)),
    {
        if ids.len() == 0 {
            return Ok(Some(make_no_rows()));
        }
        let f: &V4Footer = match self.get_or_load_footer() {
            None => {
                return Ok(None);
            },
            Some(f) => f,
        };
        let cols: Vec<usize> = match get_columns_wanted(&f.schema, columns) {
            None => {
                return Ok(None);
            },
            Some(v) => v,
        };
        let hs: Vec<Option<usize>> = find_homes(&f.row_groups, ids);
        if test_home_lacks(f, &hs) {
            return Ok(None);
        }
        let file: &Vec<u8> = match &self.file {
            None => {
                return Ok(None);
            },
            Some(v) => v,
        };
        let n: usize = ids.len();
        let groups: usize = f.row_groups.len();
        let ghost want = self.known_rows(ids@, wanted_view(columns));
        let mut st: BatchState = get_batch_start(cols.len(), n);
        let mut i: usize = 0;
        while i < groups
            invariant
                i <= groups,
                groups == f.row_groups@.len(),
                n == ids@.len(),
                hs@ == homes(f.row_groups@, ids@),
                forall|p: int|
                    0 <= p < cols@.len() ==> #[trigger] cols@[p] < f.schema.columns@.len(),
                st.fits(cols@.len() as int, n as int),
                known_upto(self.codec, *f, file@, cols@, ids@, i as int) == Ok::<
                    Option<BatchSt>,
                    ScanError,
                >(Some(st@)),
                want == self.known_rows(ids@, wanted_view(columns)),
                want == (match known_upto(
                    self.codec,
                    *f,
                    file@,
                    cols@,
                    ids@,
                    groups as int,
                ) {
                    Err(e) => Err(e),
                    Ok(None) => Ok(None),
                    Ok(Some(st)) => Ok(Some(batch_answer(f.schema, cols@, true, st))),
                }),
            decreases groups - i,
        {
            let outs: Vec<usize> = find_outs(&hs, i);
            proof {
                assert forall|j: int| 0 <= j < outs@.len() implies f.row_groups@[i as int].min_id
                    <= ids@[#[trigger] outs@[j] as int] by {
                    let k = outs@[j] as int;
                    assert(hs@[k] == Some(i));
                    home_starts_below(f.row_groups@, ids@[k], 0);
                }
            }
            match add_known_group(&self.codec, f, file.as_slice(), &cols, ids, &outs, i, &mut st) {
                Err(e) => {
                    proof {
                        known_upto_over(
                            self.codec,
                            *f,
                            file@,
                            cols@,
                            ids@,
                            i + 1,
                            groups as int,
                        );
                    }
                    return Err(e);
                },
                Ok(false) => {
                    proof {
                        known_upto_over(
                            self.codec,
                            *f,
                            file@,
                            cols@,
                            ids@,
                            i + 1,
                            groups as int,
                        );
                    }
                    return Ok(None);
                },
                Ok(true) => {},
            }
            i = i + 1;
        }
        Ok(Some(make_batch_answer(&f.schema, &cols, true, &st, n)))
    }

    /// Reads the live rows with the given identifiers, as they were written to the file.
    pub fn retrieve_many_mmap_columns(&self, ids: &[u64]) -> (r: Result<
        Option<MmapBatchColumns>,
        ScanError,
    >)
        ensures
            batch_columns_view(r) == self.known_rows(ids@, None),
    {
        self.retrieve_many_mmap_columns_impl(ids, None)
    }

    /// Reads some columns of the live rows with the given identifiers.
    pub fn retrieve_many_mmap_columns_projected(&self, ids: &[u64], columns: &[String]) -> (r: Result<
        Option<MmapBatchColumns>,
        ScanError,
    >)
        ensures
            batch_columns_view(r) == self.known_rows(ids@, wanted_view(Some(columns))),
    {
        self.retrieve_many_mmap_columns_impl(ids, Some(columns))
    }

    /// Reads the live rows with the given identifiers, without those that are pending deletion.
    pub fn retrieve_many_mmap_columns_visible(&self, ids: &[u64], pending: &[u64]) -> (r: Result<
        Option<MmapBatchColumns>,
        ScanError,
    >)
        ensures
            batch_columns_view(r) == self.known_rows(
                visible_ids(ids@, pending@, ids@.len() as int),
                None,
            ),
    {
        if pending.len() == 0 {
            proof {
                all_visible(ids@, pending@, ids@.len() as int);
                assert(ids@.take(ids@.len() as int) =~= ids@);
            }
            return self.retrieve_many_mmap_columns(ids);
        }
        let mut active: Vec<u64> = Vec::with_capacity(ids.len());
        let mut k: usize = 0;
        assert(active@ =~= Seq::empty());
        while k < ids.len()
            invariant
                k <= ids.len(),
                active@ == visible_ids(ids@, pending@, k as int),
            decreases ids.len() - k,
        {
            if !has_id(pending, ids[k]) {
                active.push(ids[k]);
            }
            k = k + 1;
        }
        self.retrieve_many_mmap_columns(active.as_slice())
    }
}

/// Without pending deletions all identifiers are visible.
proof fn all_visible(ids: Seq<u64>, pending: Seq<u64>, k: int)
    requires
        pending.len() == 0,
        0 <= k <= ids.len(),
    ensures
        visible_ids(ids, pending, k) == ids.take(k),
    decreases k,
{
    if k > 0 {
        all_visible(ids, pending, k - 1);
        assert(ids.take(k - 1).push(ids[k - 1]) =~= ids.take(k));
    } else {
        assert(ids.take(0) =~= Seq::empty());
    }
}

} // verus!
