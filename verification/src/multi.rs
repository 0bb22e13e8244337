//! The rows that match at least one of several predicates.

use vstd::prelude::*;
use vstd::slice::slice_subrange;

use crate::bytes::{binary_search_u32_le, bitmap_len, read_u32, search_words, u32_le};
use crate::codec::ColumnCodec;
use crate::dict_text::{dict_text, read_dict_text, DictText, DictTextSeq};
use crate::double::F64;
use crate::group::{
    get_stored, get_tail, get_window, id_section, rg_bitmap_len, rg_id_section_len, stored_group,
    tail, window,
};
use crate::like::PrecompiledFinder;
use crate::model::{
    bytes_eq, is_float, is_int, rows_before, rows_before_monotonic, ColumnType, RowGroupMeta,
    ScanError, V4Footer, ZoneMap, COL_ENCODING_PLAIN, RG_COMPRESS_NONE,
};
use crate::numeric::{
    encoding_of, get_encoding, get_plain_numbers, get_tag_len, in_test, is_open, min2, min_u64,
    num_rows, plain_numbers, range_test, row_open, slice_view, tag_len, NumSource, NumTest,
};
use crate::order::{ascending_rows, ascending_rows_facts, sort_distinct};
use crate::outside::occurs_at;
use crate::select::{select, select_checked, select_rows, select_rows_checked};
use crate::storage::{rows_view, OnDemandStorage};
use crate::text::{plain_text, read_plain_text, strings_view, PlainText, StrTest, TextSeq};
use crate::text_filter::{occurs_in_tail, positions};
use crate::text_sets::{text_bytes, texts_view};

verus! {

/// A predicate on one column.
#[allow(inconsistent_fields)]
pub enum MmapScanPred<'a> {
    NumericRange { col: &'a str, low: F64, high: F64 },
    StringEq { col: &'a str, value: &'a str },
    NumericIn { col: &'a str, values: &'a [i64] },
    StringIn { col: &'a str, values: &'a [String] },
}

/// A predicate on one column, as sequences.
#[allow(inconsistent_fields)]
pub enum PredSeq {
    NumericRange { col: Seq<char>, low: F64, high: F64 },
    StringEq { col: Seq<char>, value: Seq<u8> },
    NumericIn { col: Seq<char>, values: Seq<i64> },
    StringIn { col: Seq<char>, values: Seq<Seq<u8>> },
}

impl<'a> View for MmapScanPred<'a> {
    type V = PredSeq;

    open spec fn view(&self) -> PredSeq {
        match *self {
            MmapScanPred::NumericRange { col, low, high } => PredSeq::NumericRange {
                col: col@,
                low,
                high,
            },
            MmapScanPred::StringEq { col, value } => PredSeq::StringEq {
                col: col@,
                value: vstd::utf8::encode_utf8(value@),
            },
            MmapScanPred::NumericIn { col, values } => PredSeq::NumericIn {
                col: col@,
                values: values@,
            },
            MmapScanPred::StringIn { col, values } => PredSeq::StringIn {
                col: col@,
                values: texts_view(values@),
            },
        }
    }
}

/// The value of a dictionary that occurs in its data at position `p` or later: the first occurrence
/// that a search finds to be a value which ends with it. A value that ends before the occurrence is
/// a failure. Offsets are words, so positions count modulo their range.
pub open spec fn value_from(d: DictTextSeq, target: Seq<u8>, p: int) -> Option<Option<int>>
    decreases positions(d.raw) - p,
{
    if p >= positions(d.raw) {
        Some(None)
    } else if !occurs_at(d.raw, target, p) {
        value_from(d, target, p + 1)
    } else {
        match search_words(d.offsets, d.size, (p % 0x1_0000_0000) as u32) {
            None => value_from(d, target, p + 1),
            Some(k) => {
                let end = if k + 1 < d.size {
                    u32_le(d.offsets, (k + 1) * 4) as int
                } else {
                    d.declared
                };
                if end < p {
                    None
                } else if end - p == target.len() {
                    Some(Some(k as int))
                } else {
                    value_from(d, target, p + 1)
                }
            },
        }
    }
}

/// Positions without an occurrence are passed over.
proof fn value_from_skips(d: DictTextSeq, target: Seq<u8>, p: int, q: int)
    requires
        0 <= p <= q,
        forall|j: int| p <= j < q ==> !#[trigger] occurs_at(d.raw, target, j),
    ensures
        q <= positions(d.raw) ==> value_from(d, target, p) == value_from(d, target, q),
        q >= positions(d.raw) ==> value_from(d, target, p) == Some(None::<int>),
    decreases q - p,
{
    if p < q && p < positions(d.raw) {
        assert(!occurs_at(d.raw, target, p));
        value_from_skips(d, target, p + 1, q);
    }
}

/// Finds a value of a dictionary by the positions at which it occurs in the data.
fn find_value(d: &DictText, target: &[u8]) -> (r: Option<Option<usize>>)
    requires
        d.wf(),
    ensures
        match r {
            None => value_from(d@, target@, 0) is None,
            Some(None) => value_from(d@, target@, 0) == Some(None::<int>),
            Some(Some(k)) => value_from(d@, target@, 0) == Some(Some(k as int)) && k < d.size,
        },
{
    let finder: PrecompiledFinder = PrecompiledFinder::new(target);
    let ghost raw = d.raw@;
    let mut from: usize = 0;
    loop
        invariant
            from <= d.raw.len(),
            d.wf(),
            raw == d.raw@,
            finder@ == target@,
            from > 0 ==> from < raw.len(),
            value_from(d@, target@, 0) == value_from(d@, target@, from as int),
        decreases d.raw@.len() - from,
    {
        let rest: &[u8] = get_tail(d.raw, from);
        match finder.find(rest) {
            None => {
                proof {
                    assert forall|j: int| from <= j < positions(raw) implies !#[trigger] occurs_at(
                        raw,
                        target@,
                        j,
                    ) by {
                        occurs_in_tail(raw, target@, from as int, j);
                    }
                    value_from_skips(d@, target@, from as int, positions(raw));
                }
                return Some(None);
            },
            Some(rel) => {
                proof {
                    assert(rel + target@.len() <= rest@.len());
                }
                let at: usize = from + rel;
                proof {
                    occurs_in_tail(raw, target@, from as int, at as int);
                    assert forall|j: int| from <= j < at implies !#[trigger] occurs_at(
                        raw,
                        target@,
                        j,
                    ) by {
                        occurs_in_tail(raw, target@, from as int, j);
                    }
                    value_from_skips(d@, target@, from as int, at as int);
                }
                if from > 0 && at >= d.raw.len() {
                    proof {
                        value_from_skips(d@, target@, from as int, at as int);
                    }
                    return Some(None);
                }
                if at > 0 && at >= d.raw.len() {
                    return Some(None);
                }
                match binary_search_u32_le(
                    d.offsets,
                    d.size,
                    (at as u64 % 0x1_0000_0000) as u32,
                ) {
                    None => {},
                    Some(k) => {
                        proof {
                            crate::bytes::bisect_hit(
                                d.offsets@,
                                0,
                                d.size as int,
                                (at as int % 0x1_0000_0000) as u32,
                            );
                        }
                        let end: u64 = if k < d.size - 1 {
                            assert((k + 2) * 4 <= d.offsets.len());
                            read_u32(d.offsets, (k + 1) * 4) as u64
                        } else {
                            d.declared
                        };
                        if end < at as u64 {
                            return None;
                        }
                        if end - at as u64 == target.len() as u64 {
                            return Some(Some(k));
                        }
                    },
                }
                if at + 1 >= d.raw.len() {
                    proof {
                        assert(value_from(d@, target@, at + 1) == Some(None::<int>));
                    }
                    return Some(None);
                }
                from = at + 1;
            },
        }
    }
}

/// The rows of a plain column whose value is `target`: `None` where a value ends before it starts.
/// A value that ends beyond the data is none of them.
pub open spec fn equal_rows(
    t: TextSeq,
    target: Seq<u8>,
    del: Option<Seq<u8>>,
    nulls: Seq<u8>,
) -> spec_fn(int) -> Option<bool> {
    |i: int|
        if !row_open(del, Some(nulls), i) || t.end(i) > t.rest.len() {
            Some(false)
        } else if t.start(i) > t.end(i) {
            None
        } else {
            Some(t.rest.subrange(t.start(i), t.end(i)) == target)
        }
}

fn add_equal_rows(
    t: &PlainText,
    target: &[u8],
    del: Option<&[u8]>,
    nulls: &[u8],
    n: usize,
    base: usize,
    acc: &mut Vec<usize>,
) -> (ok: bool)
    requires
        t.wf(),
        n <= t.count,
        base + n <= usize::MAX,
    ensures
        ok ==> select_checked(
            equal_rows(t@, target@, slice_view(del), nulls@),
            n as int,
            base as int,
            old(acc)@,
            usize::MAX as int,
        ) == Some(final(acc)@),
        !ok ==> select_checked(
            equal_rows(t@, target@, slice_view(del), nulls@),
            n as int,
            base as int,
            old(acc)@,
            usize::MAX as int,
        ) is None,
{
    let ghost hit = equal_rows(t@, target@, slice_view(del), nulls@);
    let f = |i: usize| -> (r: Option<bool>)
        requires
            i < n,
        ensures
            r == hit(i as int),
        {
            let s: usize = t.start(i);
            let e: usize = t.end(i);
            if !is_open(del, Some(nulls), i) || e > t.rest.len() {
                Some(false)
            } else if s > e {
                None
            } else {
                Some(bytes_eq(slice_subrange(t.rest, s, e), target))
            }
        };
    select_rows_checked(f, Ghost(hit), n, base, acc, usize::MAX)
}

/// The rows of a dictionary column with index `k`.
pub open spec fn index_rows(d: DictTextSeq, k: int, del: Option<Seq<u8>>) -> spec_fn(int) -> bool {
    |i: int| row_open(del, None, i) && d.index(i) == k
}

fn add_index_rows(
    d: &DictText,
    k: u64,
    del: Option<&[u8]>,
    n: usize,
    base: usize,
    acc: &mut Vec<usize>,
)
    requires
        d.wf(),
        n <= d.rows,
        base + n <= usize::MAX,
    ensures
        final(acc)@ == select(
            index_rows(d@, k as int, slice_view(del)),
            n as int,
            base as int,
            old(acc)@,
            usize::MAX as int,
        ),
{
    let ghost hit = index_rows(d@, k as int, slice_view(del));
    let f = |i: usize| -> (r: bool)
        requires
            i < n,
        ensures
            r == hit(i as int),
        { is_open(del, None, i) && d.index(i) as u64 == k };
    select_rows(f, Ghost(hit), n, base, acc, usize::MAX);
}

/// The places of some values in a dictionary, those of the first `k` values that it has; `None` where
/// the search for one of them fails.
pub open spec fn values_found(d: DictTextSeq, values: Seq<Seq<u8>>, k: int) -> Option<Seq<int>>
    decreases k,
{
    if k <= 0 {
        Some(Seq::empty())
    } else {
        match (values_found(d, values, k - 1), value_from(d, values[k - 1], 0)) {
            (Some(before), Some(Some(x))) => Some(before.push(x)),
            (Some(before), Some(None)) => Some(before),
            _ => None,
        }
    }
}

proof fn values_failed(d: DictTextSeq, values: Seq<Seq<u8>>, j: int, k: int)
    requires
        0 <= j <= k,
        values_found(d, values, j) is None,
    ensures
        values_found(d, values, k) is None,
    decreases k,
{
    if j < k {
        values_failed(d, values, j, k - 1);
    }
}

/// Places as mathematical integers.
pub open spec fn places_view(v: Seq<usize>) -> Seq<int> {
    Seq::new(v.len(), |i: int| v[i] as int)
}

fn find_values(d: &DictText, values: &Vec<Vec<u8>>) -> (r: Option<Vec<usize>>)
    requires
        d.wf(),
    ensures
        match r {
            None => values_found(d@, strings_view(values@), values@.len() as int) is None,
            Some(v) => values_found(d@, strings_view(values@), values@.len() as int) == Some(
                places_view(v@),
            ),
        },
{
    let ghost strings = strings_view(values@);
    let mut out: Vec<usize> = Vec::new();
    assert(places_view(out@) =~= Seq::empty());
    let mut k: usize = 0;
    while k < values.len()
        invariant
            k <= values@.len(),
            d.wf(),
            strings == strings_view(values@),
            values_found(d@, strings, k as int) == Some(places_view(out@)),
        decreases values@.len() - k,
    {
        assert(strings[k as int] == values@[k as int]@);
        match find_value(d, values[k].as_slice()) {
            None => {
                proof {
                    values_failed(d@, strings, k + 1, strings.len() as int);
                }
                return None;
            },
            Some(None) => {},
            Some(Some(x)) => {
                let ghost before = places_view(out@);
                out.push(x);
                assert(places_view(out@) =~= before.push(x as int));
            },
        }
        k = k + 1;
    }
    Some(out)
}

/// The rows of a dictionary column whose value stands at one of some places.
pub open spec fn index_set_rows(d: DictTextSeq, found: Seq<int>, del: Option<Seq<u8>>) -> spec_fn(
    int,
) -> bool {
    |i: int| row_open(del, None, i) && found.contains(d.index(i) - 1)
}

fn add_index_set_rows(
    d: &DictText,
    found: &Vec<usize>,
    del: Option<&[u8]>,
    n: usize,
    base: usize,
    acc: &mut Vec<usize>,
)
    requires
        d.wf(),
        n <= d.rows,
        base + n <= usize::MAX,
    ensures
        final(acc)@ == select(
            index_set_rows(d@, places_view(found@), slice_view(del)),
            n as int,
            base as int,
            old(acc)@,
            usize::MAX as int,
        ),
{
    let ghost hit = index_set_rows(d@, places_view(found@), slice_view(del));
    let f = |i: usize| -> (r: bool)
        requires
            i < n,
        ensures
            r == hit(i as int),
        { is_open(del, None, i) && has_place(found, d.index(i)) };
    select_rows(f, Ghost(hit), n, base, acc, usize::MAX);
}

/// Whether an index, counted from 1, is that of one of some places.
fn has_place(found: &Vec<usize>, index: u32) -> (r: bool)
    ensures
        r == places_view(found@).contains(index - 1),
{
    let ghost places = places_view(found@);
    let mut k: usize = 0;
    while k < found.len()
        invariant
            k <= found@.len(),
            places == places_view(found@),
            forall|j: int| 0 <= j < k ==> #[trigger] places[j] != index - 1,
        decreases found@.len() - k,
    {
        if index > 0 && found[k] as u64 == index as u64 - 1 {
            assert(places[k as int] == index - 1);
            return true;
        }
        assert(places[k as int] == found@[k as int]);
        k = k + 1;
    }
    false
}

/// The rows of a plain column whose value is one of some strings: `None` where a value ends before it
/// starts. A value that ends beyond the data is none of them.
pub open spec fn member_rows(
    t: TextSeq,
    values: Seq<Seq<u8>>,
    del: Option<Seq<u8>>,
    nulls: Seq<u8>,
) -> spec_fn(int) -> Option<bool> {
    |i: int|
        if !row_open(del, Some(nulls), i) || t.end(i) > t.rest.len() {
            Some(false)
        } else if t.start(i) > t.end(i) {
            None
        } else {
            Some(values.contains(t.rest.subrange(t.start(i), t.end(i))))
        }
}

fn add_member_rows(
    t: &PlainText,
    values: &Vec<Vec<u8>>,
    del: Option<&[u8]>,
    nulls: &[u8],
    n: usize,
    base: usize,
    acc: &mut Vec<usize>,
) -> (ok: bool)
    requires
        t.wf(),
        n <= t.count,
        base + n <= usize::MAX,
    ensures
        ok ==> select_checked(
            member_rows(t@, strings_view(values@), slice_view(del), nulls@),
            n as int,
            base as int,
            old(acc)@,
            usize::MAX as int,
        ) == Some(final(acc)@),
        !ok ==> select_checked(
            member_rows(t@, strings_view(values@), slice_view(del), nulls@),
            n as int,
            base as int,
            old(acc)@,
            usize::MAX as int,
        ) is None,
{
    let ghost hit = member_rows(t@, strings_view(values@), slice_view(del), nulls@);
    let test: StrTest = StrTest::OneOf(values);
    let f = |i: usize| -> (r: Option<bool>)
        requires
            i < n,
        ensures
            r == hit(i as int),
        {
            let s: usize = t.start(i);
            let e: usize = t.end(i);
            if !is_open(del, Some(nulls), i) || e > t.rest.len() {
                Some(false)
            } else if s > e {
                None
            } else {
                Some(test.accepts(slice_subrange(t.rest, s, e)))
            }
        };
    select_rows_checked(f, Ghost(hit), n, base, acc, usize::MAX)
}

/// What a predicate sees of a row group: its rows, the deletion bitmap where there is one, whether
/// rows are deleted, the null bitmap of the column and its data.
pub struct ViewSeq {
    pub rows: int,
    pub deletes: bool,
    pub deleted: Option<Seq<u8>>,
    pub nulls: Seq<u8>,
    pub payload: Seq<u8>,
}

/// What a predicate sees of row group `i`; `None` where the row group is compressed or the column
/// is not there in plain form.
pub open spec fn view_of(f: V4Footer, file: Seq<u8>, col: int, i: int) -> Option<ViewSeq> {
    let meta = f.row_groups@[i];
    let rows = meta.row_count as int;
    let bm = bitmap_len(rows);
    match (stored_group(meta, file), f.rcix(i, col)) {
        (Ok(s), Some(o)) => {
            let body = tail(s, 32);
            if s[28] != RG_COMPRESS_NONE || o + bm > body.len() {
                None
            } else {
                let bytes = tail(body, o + bm);
                if encoding_of(s[29], bytes) != COL_ENCODING_PLAIN || bytes.len() < tag_len(s[29]) {
                    None
                } else {
                    Some(
                        ViewSeq {
                            rows,
                            deletes: meta.deletion_count > 0,
                            deleted: window(body, id_section(rows, s[30]), bm),
                            nulls: body.subrange(o, o + bm),
                            payload: tail(bytes, tag_len(s[29])),
                        },
                    )
                }
            }
        },
        _ => None,
    }
}

/// What a predicate sees of a row group.
pub struct GroupView<'a> {
    pub rows: u32,
    pub deletes: bool,
    pub deleted: Option<&'a [u8]>,
    pub nulls: &'a [u8],
    pub payload: &'a [u8],
}

impl<'a> View for GroupView<'a> {
    type V = ViewSeq;

    open spec fn view(&self) -> ViewSeq {
        ViewSeq {
            rows: self.rows as int,
            deletes: self.deletes,
            deleted: slice_view(self.deleted),
            nulls: self.nulls@,
            payload: self.payload@,
        }
    }
}

fn get_view<'a>(f: &V4Footer, file: &'a [u8], col: usize, i: usize) -> (r: Option<GroupView<'a>>)
    requires
        i < f.row_groups@.len(),
    ensures
        match r {
            None => view_of(*f, file@, col as int, i as int) is None,
            Some(v) => view_of(*f, file@, col as int, i as int) == Some(v@) && v.rows
                == f.row_groups@[i as int].row_count,
        },
{
    let meta: RowGroupMeta = f.row_groups[i];
    let bm: u64 = rg_bitmap_len(meta.row_count);
    match (get_stored(&meta, file), f.column_offset(i, col)) {
        (Ok(s), Some(o)) => {
            let body: &'a [u8] = get_tail(s, 32);
            if s[28] != RG_COMPRESS_NONE {
                return None;
            }
            let nulls: &'a [u8] = match get_window(body, o as u64, bm) {
                None => {
                    return None;
                },
                Some(w) => w,
            };
            let bytes: &'a [u8] = get_tail(body, (o as u64 + bm) as usize);
            let tag: usize = get_tag_len(s[29]);
            if get_encoding(s[29], bytes) != COL_ENCODING_PLAIN || bytes.len() < tag {
                return None;
            }
            Some(
                GroupView {
                    rows: meta.row_count,
                    deletes: meta.deletion_count > 0,
                    deleted: get_window(body, rg_id_section_len(meta.row_count, s[30]), bm),
                    nulls,
                    payload: get_tail(bytes, tag),
                },
            )
        },
        _ => None,
    }
}

impl ViewSeq {
    /// `acc` with the rows of a dictionary column whose value is `target`; `None` where a value
    /// cannot be read. Where rows are deleted and it is not known which, there are none.
    pub open spec fn dict_rows(self, target: Seq<u8>, base: int, acc: Seq<usize>) -> Option<
        Seq<usize>,
    > {
        match dict_text(self.payload) {
            Ok(Some(d)) if d.size > 0 => match value_from(d, target, 0) {
                None => None,
                Some(None) => Some(acc),
                Some(Some(k)) => if self.deletes && self.deleted is None {
                    Some(acc)
                } else {
                    Some(
                        select(
                            index_rows(d, k + 1, self.gone()),
                            min2(d.rows, self.rows),
                            base,
                            acc,
                            usize::MAX as int,
                        ),
                    )
                },
            },
            _ => Some(acc),
        }
    }

    /// The deletion bitmap, where rows are deleted.
    pub open spec fn gone(self) -> Option<Seq<u8>> {
        if self.deletes {
            self.deleted
        } else {
            None
        }
    }
}

/// Whether the zone map of a row group rules out a string of some length.
pub open spec fn length_misses(z: Option<ZoneMap>, n: int) -> bool {
    z matches Some(m) && !m.is_float && (n < m.min_bits || n > m.max_bits)
}

/// Whether the zone map of a row group rules out strings of the lengths of some strings: all of them
/// are too short, or all of them too long.
pub open spec fn lengths_miss(z: Option<ZoneMap>, values: Seq<Seq<u8>>) -> bool {
    z matches Some(m) && !m.is_float && values.len() > 0 && ((forall|i: int|
        0 <= i < values.len() ==> (#[trigger] values[i]).len() < m.min_bits) || (forall|i: int|
        0 <= i < values.len() ==> (#[trigger] values[i]).len() > m.max_bits))
}

impl ViewSeq {
    /// `acc` with the rows whose string is `value`; `None` where a string cannot be read.
    pub open spec fn string_rows(self, kind: ColumnType, value: Seq<u8>, base: int, acc: Seq<usize>) -> Option<
        Seq<usize>,
    > {
        if kind is StringDict {
            self.dict_rows(value, base, acc)
        } else if kind is String {
            match plain_text(self.payload) {
                None => Some(acc),
                Some(t) => select_checked(
                    equal_rows(t, value, self.gone(), self.nulls),
                    min2(t.count, self.rows),
                    base,
                    acc,
                    usize::MAX as int,
                ),
            }
        } else {
            Some(acc)
        }
    }

    /// `acc` with the rows whose string is one of some strings; `None` where a string cannot be read.
    pub open spec fn set_rows(
        self,
        kind: ColumnType,
        values: Seq<Seq<u8>>,
        base: int,
        acc: Seq<usize>,
    ) -> Option<Seq<usize>> {
        if kind is StringDict {
            match dict_text(self.payload) {
                Ok(Some(d)) if d.size > 0 => match values_found(d, values, values.len() as int) {
                    None => None,
                    Some(found) => if self.deletes && self.deleted is None {
                        Some(acc)
                    } else {
                        Some(
                            select(
                                index_set_rows(d, found, self.gone()),
                                min2(d.rows, self.rows),
                                base,
                                acc,
                                usize::MAX as int,
                            ),
                        )
                    },
                },
                _ => Some(acc),
            }
        } else if kind is String {
            match plain_text(self.payload) {
                None => Some(acc),
                Some(t) => select_checked(
                    member_rows(t, values, self.gone(), self.nulls),
                    min2(t.count, self.rows),
                    base,
                    acc,
                    usize::MAX as int,
                ),
            }
        } else {
            Some(acc)
        }
    }
}

impl PredSeq {
    /// The column of a predicate.
    pub open spec fn column(self) -> Seq<char> {
        match self {
            PredSeq::NumericRange { col, .. } => col,
            PredSeq::StringEq { col, .. } => col,
            PredSeq::NumericIn { col, .. } => col,
            PredSeq::StringIn { col, .. } => col,
        }
    }

    /// Whether the zone map of a row group rules out every row.
    pub open spec fn misses(self, z: Option<ZoneMap>) -> bool {
        match self {
            PredSeq::NumericRange { low, high, .. } => range_test(low, high).misses(z),
            PredSeq::NumericIn { values, .. } => values.len() > 0 && in_test(values).misses(z),
            PredSeq::StringEq { value, .. } => length_misses(z, value.len() as int),
            PredSeq::StringIn { values, .. } => lengths_miss(z, values),
        }
    }

    /// `acc` with the rows of a row group that match; `None` where a value cannot be read. A
    /// predicate that does not suit the column has no rows.
    pub open spec fn rows_in(self, kind: ColumnType, v: ViewSeq, base: int, acc: Seq<usize>) -> Option<
        Seq<usize>,
    > {
        let max = usize::MAX as int;
        match self {
            PredSeq::NumericRange { low, high, .. } => if (is_int(kind) || is_float(kind))
                && v.payload.len() >= 8 {
                let (src, n) = plain_numbers(is_int(kind), v.rows, v.payload);
                Some(
                    select(
                        num_rows(src, range_test(low, high), v.gone(), Some(v.nulls)),
                        n,
                        base,
                        acc,
                        max,
                    ),
                )
            } else {
                Some(acc)
            },
            PredSeq::NumericIn { values, .. } => if is_int(kind) && v.payload.len() >= 8
                && values.len() > 0 {
                let (src, n) = plain_numbers(true, v.rows, v.payload);
                Some(
                    select(
                        num_rows(src, in_test(values), v.gone(), Some(v.nulls)),
                        n,
                        base,
                        acc,
                        max,
                    ),
                )
            } else {
                Some(acc)
            },
            PredSeq::StringEq { value, .. } => v.string_rows(kind, value, base, acc),
            PredSeq::StringIn { values, .. } => v.set_rows(kind, values, base, acc),
        }
    }

    /// The rows of the first `k` row groups that match.
    pub open spec fn scan(self, f: V4Footer, file: Seq<u8>, col: int, k: int) -> Option<Seq<usize>>
        decreases k,
    {
        if k <= 0 {
            Some(Seq::empty())
        } else {
            match self.scan(f, file, col, k - 1) {
                None => None,
                Some(acc) => if f.row_groups@[k - 1].row_count == 0 || self.misses(
                    f.zone(k - 1, col, false),
                ) {
                    Some(acc)
                } else {
                    match view_of(f, file, col, k - 1) {
                        None => Some(acc),
                        Some(v) => self.rows_in(
                            f.schema.kind(col),
                            v,
                            rows_before(f.row_groups@, k - 1),
                            acc,
                        ),
                    }
                },
            }
        }
    }

    proof fn scan_failed(self, f: V4Footer, file: Seq<u8>, col: int, j: int, k: int)
        requires
            0 <= j <= k,
            self.scan(f, file, col, j) is None,
        ensures
            self.scan(f, file, col, k) is None,
        decreases k,
    {
        if j < k {
            self.scan_failed(f, file, col, j, k - 1);
        }
    }

    /// The rows that match. A column that is not there has none.
    pub open spec fn matched(self, f: V4Footer, file: Seq<u8>) -> Option<Seq<usize>> {
        match f.schema.index_of(self.column()) {
            None => Some(Seq::empty()),
            Some(col) => self.scan(f, file, col as int, f.row_groups@.len() as int),
        }
    }
}

impl<'a> GroupView<'a> {
    fn gone(&self) -> (r: Option<&'a [u8]>)
        ensures
            slice_view(r) == self@.gone(),
    {
        if self.deletes {
            self.deleted
        } else {
            None
        }
    }
}

fn add_dict_rows(v: &GroupView, target: &[u8], base: usize, acc: &mut Vec<usize>) -> (ok: bool)
    requires
        base + v.rows <= usize::MAX,
    ensures
        ok ==> v@.dict_rows(target@, base as int, old(acc)@) == Some(final(acc)@),
        !ok ==> v@.dict_rows(target@, base as int, old(acc)@) is None,
{
    let d: DictText = match read_dict_text(v.payload) {
        Ok(Some(d)) => d,
        _ => {
            return true;
        },
    };
    if d.size == 0 {
        return true;
    }
    match find_value(&d, target) {
        None => false,
        Some(None) => true,
        Some(Some(k)) => {
            if !(v.deletes && v.deleted.is_none()) {
                let n: usize = min_u64(d.rows as u64, v.rows as u64) as usize;
                add_index_rows(&d, k as u64 + 1, v.gone(), n, base, acc);
            }
            true
        },
    }
}

fn add_string_rows(
    v: &GroupView,
    kind: ColumnType,
    target: &[u8],
    base: usize,
    acc: &mut Vec<usize>,
) -> (ok: bool)
    requires
        base + v.rows <= usize::MAX,
    ensures
        ok ==> v@.string_rows(kind, target@, base as int, old(acc)@) == Some(final(acc)@),
        !ok ==> v@.string_rows(kind, target@, base as int, old(acc)@) is None,
{
    if matches!(kind, ColumnType::StringDict) {
        return add_dict_rows(v, target, base, acc);
    }
    if matches!(kind, ColumnType::String) {
        match read_plain_text(v.payload) {
            None => {},
            Some(t) => {
                let n: usize = min_u64(t.count as u64, v.rows as u64) as usize;
                return add_equal_rows(&t, target, v.gone(), v.nulls, n, base, acc);
            },
        }
    }
    true
}

fn add_set_rows(
    v: &GroupView,
    kind: ColumnType,
    values: &Vec<Vec<u8>>,
    base: usize,
    acc: &mut Vec<usize>,
) -> (ok: bool)
    requires
        base + v.rows <= usize::MAX,
    ensures
        ok ==> v@.set_rows(kind, strings_view(values@), base as int, old(acc)@) == Some(final(acc)@),
        !ok ==> v@.set_rows(kind, strings_view(values@), base as int, old(acc)@) is None,
{
    if matches!(kind, ColumnType::StringDict) {
        let d: DictText = match read_dict_text(v.payload) {
            Ok(Some(d)) => d,
            _ => {
                return true;
            },
        };
        if d.size == 0 {
            return true;
        }
        return match find_values(&d, values) {
            None => false,
            Some(found) => {
                if !(v.deletes && v.deleted.is_none()) {
                    let n: usize = min_u64(d.rows as u64, v.rows as u64) as usize;
                    add_index_set_rows(&d, &found, v.gone(), n, base, acc);
                }
                true
            },
        };
    }
    if matches!(kind, ColumnType::String) {
        match read_plain_text(v.payload) {
            None => {},
            Some(t) => {
                let n: usize = min_u64(t.count as u64, v.rows as u64) as usize;
                return add_member_rows(&t, values, v.gone(), v.nulls, n, base, acc);
            },
        }
    }
    true
}

fn do_lengths_miss(m: &ZoneMap, values: &[String]) -> (r: bool)
    ensures
        !m.is_float ==> r == lengths_miss(Some(*m), texts_view(values@)),
{
    let ghost texts = texts_view(values@);
    let mut short: bool = true;
    let mut long: bool = true;
    let mut k: usize = 0;
    while k < values.len()
        invariant
            k <= values@.len(),
            texts == texts_view(values@),
            short == (forall|i: int| 0 <= i < k ==> (#[trigger] texts[i]).len() < m.min_bits),
            long == (forall|i: int| 0 <= i < k ==> (#[trigger] texts[i]).len() > m.max_bits),
        decreases values@.len() - k,
    {
        assert(texts[k as int] == vstd::utf8::encode_utf8(values@[k as int]@));
        let n: i128 = values[k].as_str().as_bytes().len() as i128;
        if n >= m.min_bits as i128 {
            short = false;
        }
        if n <= m.max_bits as i128 {
            long = false;
        }
        k = k + 1;
    }
    values.len() > 0 && (short || long)
}

impl<'a> MmapScanPred<'a> {
    fn column(&self) -> (r: &'a str)
        ensures
            r@ == self@.column(),
    {
        match self {
            MmapScanPred::NumericRange { col, .. } => *col,
            MmapScanPred::StringEq { col, .. } => *col,
            MmapScanPred::NumericIn { col, .. } => *col,
            MmapScanPred::StringIn { col, .. } => *col,
        }
    }

    /// The test on numbers that a predicate makes.
    fn test(&self) -> (r: Option<NumTest>)
        ensures
            match self@ {
                PredSeq::NumericRange { low, high, .. } => r matches Some(t) && t@ == range_test(
                    low,
                    high,
                ),
                PredSeq::NumericIn { values, .. } => if values.len() > 0 {
                    r matches Some(t) && t@ == in_test(values)
                } else {
                    r is None
                },
                _ => r is None,
            },
    {
        match self {
            MmapScanPred::NumericRange { low, high, .. } => Some(NumTest::range(*low, *high)),
            MmapScanPred::NumericIn { values, .. } => if values.len() > 0 {
                Some(NumTest::one_of(values))
            } else {
                None
            },
            _ => None,
        }
    }

    fn misses(&self, test: &Option<NumTest>, z: Option<ZoneMap>) -> (r: bool)
        requires
            match self@ {
                PredSeq::NumericRange { low, high, .. } => *test matches Some(t) && t@
                    == range_test(low, high),
                PredSeq::NumericIn { values, .. } => if values.len() > 0 {
                    *test matches Some(t) && t@ == in_test(values)
                } else {
                    *test is None
                },
                _ => *test is None,
            },
        ensures
            r == self@.misses(z),
    {
        match test {
            Some(t) => t.misses(z),
            None => match self {
                MmapScanPred::StringEq { value, .. } => match z {
                    Some(m) => {
                        let n: i128 = value.as_bytes().len() as i128;
                        !m.is_float && (n < m.min_bits as i128 || n > m.max_bits as i128)
                    },
                    None => false,
                },
                MmapScanPred::StringIn { values, .. } => match z {
                    Some(m) => !m.is_float && do_lengths_miss(&m, values),
                    None => false,
                },
                _ => false,
            },
        }
    }

    fn add_rows(
        &self,
        test: &Option<NumTest>,
        kind: ColumnType,
        v: &GroupView,
        base: usize,
        acc: &mut Vec<usize>,
    ) -> (ok: bool)
        requires
            base + v.rows <= usize::MAX,
            match self@ {
                PredSeq::NumericRange { low, high, .. } => *test matches Some(t) && t@
                    == range_test(low, high),
                PredSeq::NumericIn { values, .. } => if values.len() > 0 {
                    *test matches Some(t) && t@ == in_test(values)
                } else {
                    *test is None
                },
                _ => *test is None,
            },
        ensures
            ok ==> self@.rows_in(kind, v@, base as int, old(acc)@) == Some(final(acc)@),
            !ok ==> self@.rows_in(kind, v@, base as int, old(acc)@) is None,
    {
        let gone: Option<&[u8]> = v.gone();
        match self {
            MmapScanPred::StringEq { value, .. } => add_string_rows(
                v,
                kind,
                value.as_bytes(),
                base,
                acc,
            ),
            MmapScanPred::StringIn { values, .. } => {
                let strings: Vec<Vec<u8>> = text_bytes(values);
                add_set_rows(v, kind, &strings, base, acc)
            },
            _ => {
                if let Some(t) = test {
                    let ints: bool = kind.is_int();
                    let suits: bool = ints || (kind.is_float() && matches!(
                        self,
                        MmapScanPred::NumericRange { .. }
                    ));
                    if suits && v.payload.len() >= 8 {
                        let (src, n): (NumSource, usize) = get_plain_numbers(
                            ints,
                            v.rows,
                            v.payload,
                        );
                        src.select(t, gone, Some(v.nulls), n, base, acc, usize::MAX);
                    }
                }
                true
            },
        }
    }

    #[verifier::spinoff_prover]
    #[verifier::rlimit(60)]
    fn scan(&self, f: &V4Footer, file: &[u8]) -> (r: Option<Vec<usize>>)
        requires
            f.wf(),
        ensures
            match r {
                None => self@.matched(*f, file@) is None,
                Some(v) => self@.matched(*f, file@) == Some(v@),
            },
    {
        let mut acc: Vec<usize> = Vec::new();
        let col: usize = match f.schema.get_index(self.column()) {
            None => {
                return Some(acc);
            },
            Some(i) => i,
        };
        let kind: ColumnType = f.schema.columns[col].1;
        let test: Option<NumTest> = self.test();
        let ghost n = f.row_groups@.len() as int;
        let mut base: usize = 0;
        let mut i: usize = 0;
        while i < f.row_groups.len()
            invariant
                i <= f.row_groups@.len(),
                n == f.row_groups@.len(),
                f.wf(),
                kind == f.schema.kind(col as int),
                f.schema.index_of(self@.column()) == Some(col),
                match self@ {
                    PredSeq::NumericRange { low, high, .. } => test matches Some(t) && t@
                        == range_test(low, high),
                    PredSeq::NumericIn { values, .. } => if values.len() > 0 {
                        test matches Some(t) && t@ == in_test(values)
                    } else {
                        test is None
                    },
                    _ => test is None,
                },
                base == rows_before(f.row_groups@, i as int),
                self@.scan(*f, file@, col as int, i as int) == Some(acc@),
            decreases f.row_groups@.len() - i,
        {
            let rows: u32 = f.row_groups[i].row_count;
            proof {
                rows_before_monotonic(f.row_groups@, i + 1, n);
            }
            if rows > 0 && !self.misses(&test, f.zone_map(i, col, false)) {
                if let Some(v) = get_view(f, file, col, i) {
                    if !self.add_rows(&test, kind, &v, base, &mut acc) {
                        proof {
                            self@.scan_failed(*f, file@, col as int, i + 1, n);
                        }
                        return None;
                    }
                }
            }
            base = base + rows as usize;
            i = i + 1;
        }
        Some(acc)
    }
}

/// Predicates as sequences.
pub open spec fn preds_view(ps: Seq<MmapScanPred>) -> Seq<PredSeq> {
    Seq::new(ps.len(), |i: int| ps[i]@)
}

/// The rows that the first `k` predicates match, one predicate after the other.
pub open spec fn matched_by(ps: Seq<PredSeq>, f: V4Footer, file: Seq<u8>, k: int) -> Option<
    Seq<usize>,
>
    decreases k,
{
    if k <= 0 {
        Some(Seq::empty())
    } else {
        match (matched_by(ps, f, file, k - 1), ps[k - 1].matched(f, file)) {
            (Some(a), Some(b)) => Some(a + b),
            _ => None,
        }
    }
}

proof fn matched_by_failed(ps: Seq<PredSeq>, f: V4Footer, file: Seq<u8>, j: int, k: int)
    requires
        0 <= j <= k,
        matched_by(ps, f, file, j) is None,
    ensures
        matched_by(ps, f, file, k) is None,
    decreases k,
{
    if j < k {
        matched_by_failed(ps, f, file, j, k - 1);
    }
}

/// A row is matched by some predicates together exactly if one of them matches it.
proof fn matched_by_members(ps: Seq<PredSeq>, f: V4Footer, file: Seq<u8>, k: int, row: usize)
    requires
        0 <= k <= ps.len(),
        matched_by(ps, f, file, k) is Some,
    ensures
        matched_by(ps, f, file, k)->0.contains(row) == exists|i: int|
            0 <= i < k && (#[trigger] ps[i].matched(f, file))->0.contains(row),
    decreases k,
{
    if k > 0 {
        matched_by_members(ps, f, file, k - 1, row);
        let a = matched_by(ps, f, file, k - 1)->0;
        let b = ps[k - 1].matched(f, file)->0;
        let both = a + b;
        if both.contains(row) {
            let j = choose|j: int| 0 <= j < both.len() && both[j] == row;
            if j < a.len() {
                assert(a[j] == row);
            } else {
                assert(b[j - a.len()] == row);
                assert(ps[k - 1].matched(f, file)->0.contains(row));
            }
        }
        if a.contains(row) {
            let j = choose|j: int| 0 <= j < a.len() && a[j] == row;
            assert(both[j] == row);
        }
        if b.contains(row) {
            let j = choose|j: int| 0 <= j < b.len() && b[j] == row;
            assert(both[a.len() + j] == row);
        }
        if exists|i: int| 0 <= i < k && (#[trigger] ps[i].matched(f, file))->0.contains(row) {
            let i = choose|i: int|
                0 <= i < k && (#[trigger] ps[i].matched(f, file))->0.contains(row);
            if i == k - 1 {
                assert(b.contains(row));
            }
        }
    }
}

/// The rows of several predicates are those of any of them, in ascending order and each once.
pub proof fn law_any_predicate(ps: Seq<PredSeq>, f: V4Footer, file: Seq<u8>, row: usize)
    requires
        matched_by(ps, f, file, ps.len() as int) is Some,
    ensures
        ({
            let rows = ascending_rows(matched_by(ps, f, file, ps.len() as int)->0);
            &&& crate::order::strictly_ascending(rows)
            &&& rows.contains(row) == exists|i: int|
                0 <= i < ps.len() && (#[trigger] ps[i].matched(f, file))->0.contains(row)
        }),
{
    matched_by_members(ps, f, file, ps.len() as int, row);
    ascending_rows_facts(matched_by(ps, f, file, ps.len() as int)->0);
}

impl<C: ColumnCodec> OnDemandStorage<C> {
    /// What a scan for any of several predicates gives.
    pub open spec fn any_of(self, ps: Seq<PredSeq>) -> Result<Option<Seq<usize>>, ScanError> {
        if ps.len() == 0 {
            Ok(Some(Seq::empty()))
        } else {
            match (self.footer, self.file) {
                (None, _) => Ok(None),
                (Some(_), None) => Err(ScanError::NotOpen),
                (Some(f), Some(file)) => match matched_by(ps, f, file@, ps.len() as int) {
                    None => Err(ScanError::Corrupt),
                    Some(rows) => Ok(Some(ascending_rows(rows))),
                },
            }
        }
    }

    /// Finds the rows that match at least one of several predicates.
    pub fn scan_multi_predicates_parallel(&self, predicates: &[MmapScanPred]) -> (r: Result<
        Option<Vec<usize>>,
        ScanError,
    >)
        requires
            self.wf(),
        ensures
            rows_view(r) == self.any_of(preds_view(predicates@)),
    {
        let mut all: Vec<usize> = Vec::new();
        if predicates.len() == 0 {
            return Ok(Some(all));
        }
        let f: &V4Footer = match &self.footer {
            None => {
                return Ok(None);
            },
            Some(f) => f,
        };
        let file: &[u8] = match &self.file {
            None => {
                return Err(ScanError::NotOpen);
            },
            Some(v) => v.as_slice(),
        };
        let ghost ps = preds_view(predicates@);
        let mut i: usize = 0;
        while i < predicates.len()
            invariant
                i <= predicates.len(),
                ps == preds_view(predicates@),
                ps.len() == predicates@.len(),
                ps.len() > 0,
                f.wf(),
                self.footer == Some(*f),
                self.file matches Some(v) && v@ == file@,
                matched_by(ps, *f, file@, i as int) == Some(all@),
            decreases predicates.len() - i,
        {
            match predicates[i].scan(f, file) {
                None => {
                    proof {
                        matched_by_failed(ps, *f, file@, i + 1, ps.len() as int);
                    }
                    return Err(ScanError::Corrupt);
                },
                Some(mut rows) => {
                    all.append(&mut rows);
                },
            }
            i = i + 1;
        }
        Ok(Some(sort_distinct(all)))
    }
}

} // verus!
