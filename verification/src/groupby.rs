//! Grouping the rows that match a string by another string, with an aggregate for each group.

use vstd::prelude::*;
use vstd::slice::slice_subrange;

use crate::bytes::bitmap_len;
use crate::codec::ColumnCodec;
use crate::dict_text::{
    dict_text, read_dict_text, read_strict_text, strict_text, DictText, DictTextSeq,
};
use crate::dict_values::{text_of, text_or_empty};
use crate::double::{lt, F64};
use crate::group::{
    get_stored, get_tail, get_window, id_section, rg_bitmap_len, rg_id_section_len, stored_group,
    tail, window,
};
use crate::model::{
    bytes_eq, is_float, is_text, rows_before, rows_before_monotonic, ColumnType, RowGroupMeta,
    ScanError, V4Footer, COL_ENCODING_PLAIN, RG_COMPRESS_NONE,
};
use crate::numeric::{is_open, min2, min_u64, row_open, slice_view, NumSeq, NumSource};
use crate::outside::text_from_bytes;
use crate::storage::OnDemandStorage;
use crate::text::{PlainText, TextSeq};

verus! {

/// A group: its key, the number of its rows, and its numbers. The sum of a group is that of its
/// parts, each of which is added up on its own.
#[derive(Debug, PartialEq, Eq)]
pub struct GroupTally {
    pub key: String,
    pub count: i64,
    pub parts: Vec<Vec<F64>>,
}

/// A group, as sequences.
#[verifier::ext_equal]
pub struct TallySeq {
    pub key: Seq<char>,
    pub count: int,
    pub parts: Seq<Seq<F64>>,
}

/// Parts as sequences.
pub open spec fn parts_view(v: Seq<Vec<F64>>) -> Seq<Seq<F64>> {
    Seq::new(v.len(), |i: int| v[i]@)
}

impl View for GroupTally {
    type V = TallySeq;

    open spec fn view(&self) -> TallySeq {
        TallySeq { key: self.key@, count: self.count as int, parts: parts_view(self.parts@) }
    }
}

/// Groups as sequences.
pub open spec fn tallies_view(v: Seq<GroupTally>) -> Seq<TallySeq> {
    Seq::new(v.len(), |i: int| v[i]@)
}

/// The first group from `i` on with a key; the number of groups where there is none.
pub open spec fn find_key(ts: Seq<TallySeq>, key: Seq<char>, i: int) -> int
    decreases ts.len() - i,
{
    if i >= ts.len() {
        ts.len() as int
    } else if ts[i].key == key {
        i
    } else {
        find_key(ts, key, i + 1)
    }
}

/// The groups after rows and numbers were credited to a key. A new group comes last.
pub open spec fn credit(ts: Seq<TallySeq>, key: Seq<char>, count: int, part: Seq<F64>) -> Seq<
    TallySeq,
> {
    let at = find_key(ts, key, 0);
    if at < ts.len() {
        ts.update(
            at,
            TallySeq { key, count: ts[at].count + count, parts: ts[at].parts.push(part) },
        )
    } else {
        ts.push(TallySeq { key, count, parts: seq![part] })
    }
}

/// Rows in all groups.
pub open spec fn total(ts: Seq<TallySeq>) -> int
    decreases ts.len(),
{
    if ts.len() == 0 {
        0
    } else {
        total(ts.drop_last()) + ts.last().count
    }
}

/// Whether every group has rows, and no two groups have one key.
pub open spec fn sound(ts: Seq<TallySeq>) -> bool {
    &&& forall|i: int| 0 <= i < ts.len() ==> (#[trigger] ts[i]).count >= 1
    &&& forall|i: int, j: int|
        0 <= i < j < ts.len() ==> (#[trigger] ts[i]).key != (#[trigger] ts[j]).key
}

pub(crate) proof fn find_key_facts(ts: Seq<TallySeq>, key: Seq<char>, i: int)
    requires
        0 <= i <= ts.len(),
    ensures
        i <= find_key(ts, key, i) <= ts.len(),
        find_key(ts, key, i) < ts.len() ==> ts[find_key(ts, key, i)].key == key,
        find_key(ts, key, i) == ts.len() ==> forall|j: int|
            i <= j < ts.len() ==> (#[trigger] ts[j]).key != key,
    decreases ts.len() - i,
{
    if i < ts.len() && ts[i].key != key {
        find_key_facts(ts, key, i + 1);
    }
}

proof fn total_update(ts: Seq<TallySeq>, at: int, t: TallySeq)
    requires
        0 <= at < ts.len(),
    ensures
        total(ts.update(at, t)) == total(ts) - ts[at].count + t.count,
    decreases ts.len(),
{
    let u = ts.update(at, t);
    if at < ts.len() - 1 {
        assert(u.drop_last() =~= ts.drop_last().update(at, t));
        total_update(ts.drop_last(), at, t);
    } else {
        assert(u.drop_last() =~= ts.drop_last());
    }
}

proof fn total_bounds(ts: Seq<TallySeq>, i: int)
    requires
        sound(ts),
        0 <= i < ts.len(),
    ensures
        ts[i].count <= total(ts),
        0 <= total(ts),
    decreases ts.len(),
{
    assert(ts[ts.len() - 1].count >= 1);
    let w = ts.drop_last();
    assert(sound(w)) by {
        assert forall|k: int| 0 <= k < w.len() implies (#[trigger] w[k]).count >= 1 by {
            assert(w[k] == ts[k]);
        }
        assert forall|k: int, j: int| 0 <= k < j < w.len() implies (#[trigger] w[k]).key != (
        #[trigger] w[j]).key by {
            assert(ts[k].key != ts[j].key);
        }
    }
    if i < ts.len() - 1 {
        total_bounds(w, i);
    } else if w.len() > 0 {
        total_bounds(w, 0);
    }
}

/// A credit keeps groups sound and adds to the rows.
pub proof fn law_credit(ts: Seq<TallySeq>, key: Seq<char>, count: int, part: Seq<F64>)
    requires
        sound(ts),
        count >= 1,
    ensures
        sound(credit(ts, key, count, part)),
        total(credit(ts, key, count, part)) == total(ts) + count,
{
    let at = find_key(ts, key, 0);
    let now = credit(ts, key, count, part);
    find_key_facts(ts, key, 0);
    if at < ts.len() {
        assert(ts[at].count >= 1);
        total_update(ts, at, now[at]);
        assert forall|i: int, j: int| 0 <= i < j < now.len() implies (#[trigger] now[i]).key != (
        #[trigger] now[j]).key by {
            assert(ts[i].key != ts[j].key);
        }
        assert forall|i: int| 0 <= i < now.len() implies (#[trigger] now[i]).count >= 1 by {
            assert(ts[i].count >= 1);
        }
    } else {
        assert(now.drop_last() =~= ts);
        assert forall|i: int, j: int| 0 <= i < j < now.len() implies (#[trigger] now[i]).key != (
        #[trigger] now[j]).key by {
            if j < ts.len() {
                assert(ts[i].key != ts[j].key);
            } else {
                assert(ts[i].key != key);
            }
        }
        assert forall|i: int| 0 <= i < now.len() implies (#[trigger] now[i]).count >= 1 by {
            if i < ts.len() {
                assert(ts[i].count >= 1);
            }
        }
    }
}

/// Credits rows and numbers to a key.
fn add_credit(ts: &mut Vec<GroupTally>, key: String, count: i64, part: Vec<F64>)
    requires
        sound(tallies_view(old(ts)@)),
        count >= 1,
        total(tallies_view(old(ts)@)) + count <= i64::MAX,
    ensures
        tallies_view(final(ts)@) == credit(
            tallies_view(old(ts)@),
            key@,
            count as int,
            part@,
        ),
        sound(tallies_view(final(ts)@)),
        total(tallies_view(final(ts)@)) == total(tallies_view(old(ts)@)) + count,
{
    let ghost before = tallies_view(ts@);
    proof {
        law_credit(before, key@, count as int, part@);
        find_key_facts(before, key@, 0);
    }
    let mut i: usize = 0;
    while i < ts.len() && !crate::model::str_eq(ts[i].key.as_str(), key.as_str())
        invariant
            i <= ts@.len(),
            before == tallies_view(ts@),
            find_key(before, key@, 0) == find_key(before, key@, i as int),
        decreases ts@.len() - i,
    {
        assert(before[i as int].key == ts@[i as int].key@);
        i = i + 1;
    }
    if i < ts.len() {
        let ghost old_tally = ts@[i as int]@;
        proof {
            total_bounds(before, i as int);
            assert(before[i as int] == old_tally);
        }
        let mut t: GroupTally = ts.remove(i);
        let ghost rest = ts@;
        t.count = t.count + count;
        let ghost parts_before = t.parts@;
        let ghost added = part@;
        t.parts.push(part);
        proof {
            assert(parts_view(t.parts@) =~= parts_view(parts_before).push(added));
        }
        let ghost tv = t@;
        ts.insert(i, t);
        proof {
            assert(tallies_view(ts@) =~= before.update(i as int, tv));
        }
    } else {
        let ghost added = part@;
        let mut parts: Vec<Vec<F64>> = Vec::new();
        parts.push(part);
        proof {
            assert(parts_view(parts@) =~= seq![added]);
        }
        ts.push(GroupTally { key, count, parts });
        proof {
            assert(tallies_view(ts@) =~= before.push(ts@.last()@));
        }
    }
}

/// The numbers that are aggregated, for the first `n` rows of a row group.
pub struct AggSeq {
    pub src: NumSeq,
    pub n: int,
}

/// What row `i` adds to its group.
pub open spec fn part_of(agg: Option<AggSeq>, i: int) -> Seq<F64> {
    match agg {
        Some(a) if i < a.n => seq![a.src.real_at(i)],
        _ => Seq::empty(),
    }
}

/// The numbers that are aggregated, for the first `n` rows of a row group.
pub struct AggSource<'a> {
    pub src: NumSource<'a>,
    pub n: usize,
}

/// The numbers that are aggregated.
pub open spec fn agg_view(agg: Option<AggSource>) -> Option<AggSeq> {
    match agg {
        None => None,
        Some(a) => Some(AggSeq { src: a.src@, n: a.n as int }),
    }
}

/// Whether the numbers are there.
pub open spec fn agg_wf(agg: Option<AggSource>) -> bool {
    agg matches Some(a) ==> a.src@.covers(a.n as int)
}

fn get_part(agg: &Option<AggSource>, i: usize) -> (r: Vec<F64>)
    requires
        agg_wf(*agg),
    ensures
        r@ == part_of(agg_view(*agg), i as int),
{
    let mut out: Vec<F64> = Vec::new();
    if let Some(a) = agg {
        if i < a.n {
            out.push(a.src.real_at(i));
        }
    }
    assert(out@ =~= part_of(agg_view(*agg), i as int));
    out
}

/// Which rows match: those of a dictionary with an index, or those of a plain column whose value is
/// the target.
pub enum FilterSeq {
    Dict(DictTextSeq, int),
    Text(TextSeq, Seq<u8>),
}

impl FilterSeq {
    /// The number of rows of the column.
    pub open spec fn rows(self) -> int {
        match self {
            FilterSeq::Dict(d, _) => d.rows,
            FilterSeq::Text(t, _) => t.count,
        }
    }

    /// Whether row `i` matches; `None` where its value cannot be read.
    pub open spec fn hit(self, i: int) -> Option<bool> {
        match self {
            FilterSeq::Dict(d, k) => Some(d.index(i) == k),
            FilterSeq::Text(t, target) => if t.start(i) > t.end(i) {
                None
            } else if t.end(i) - t.start(i) != target.len() {
                Some(false)
            } else if t.end(i) > t.rest.len() {
                None
            } else {
                Some(t.rest.subrange(t.start(i), t.end(i)) == target)
            },
        }
    }
}

/// Which rows match.
pub enum RowFilter<'a> {
    Dict(DictText<'a>, u64),
    Text(PlainText<'a>, &'a [u8]),
}

impl<'a> View for RowFilter<'a> {
    type V = FilterSeq;

    open spec fn view(&self) -> FilterSeq {
        match *self {
            RowFilter::Dict(d, k) => FilterSeq::Dict(d@, k as int),
            RowFilter::Text(t, target) => FilterSeq::Text(t@, target@),
        }
    }
}

impl<'a> RowFilter<'a> {
    /// Whether the column was taken apart as it should be.
    pub open spec fn wf(self) -> bool {
        match self {
            RowFilter::Dict(d, _) => d.wf(),
            RowFilter::Text(t, _) => t.wf(),
        }
    }

    fn rows(&self) -> (r: usize)
        ensures
            r == self@.rows(),
    {
        match self {
            RowFilter::Dict(d, _) => d.rows,
            RowFilter::Text(t, _) => t.count,
        }
    }

    fn hit(&self, i: usize) -> (r: Option<bool>)
        requires
            self.wf(),
            i < self@.rows(),
        ensures
            r == self@.hit(i as int),
    {
        match self {
            RowFilter::Dict(d, k) => Some(d.index(i) as u64 == *k),
            RowFilter::Text(t, target) => {
                let s: usize = t.start(i);
                let e: usize = t.end(i);
                if s > e {
                    None
                } else if e - s != target.len() {
                    Some(false)
                } else if e > t.rest.len() {
                    None
                } else {
                    Some(bytes_eq(slice_subrange(t.rest, s, e), target))
                }
            },
        }
    }
}

/// Where the keys of the groups come from.
pub enum KeySeq {
    Dict(DictTextSeq),
    Text(TextSeq),
}

impl KeySeq {
    /// The key of row `i`: `Some(None)` where it has none, `None` where it cannot be read. A missing
    /// value of a dictionary has an empty key.
    pub open spec fn key(self, i: int) -> Option<Option<Seq<char>>> {
        match self {
            KeySeq::Dict(d) => if i >= d.rows {
                Some(None)
            } else if d.index(i) == 0 {
                Some(Some(Seq::empty()))
            } else if d.index(i) > d.size {
                Some(None)
            } else {
                match d.value(d.index(i) - 1) {
                    None => None,
                    Some(v) => Some(Some(text_of(v))),
                }
            },
            KeySeq::Text(t) => if i >= t.count || t.end(i) > t.rest.len() {
                Some(None)
            } else if t.start(i) > t.end(i) {
                None
            } else {
                let v = t.rest.subrange(t.start(i), t.end(i));
                if vstd::utf8::valid_utf8(v) {
                    Some(Some(vstd::utf8::decode_utf8(v)))
                } else {
                    Some(None)
                }
            },
        }
    }
}

/// Where the keys of the groups come from.
pub enum KeySource<'a> {
    Dict(DictText<'a>),
    Text(PlainText<'a>),
}

impl<'a> View for KeySource<'a> {
    type V = KeySeq;

    open spec fn view(&self) -> KeySeq {
        match *self {
            KeySource::Dict(d) => KeySeq::Dict(d@),
            KeySource::Text(t) => KeySeq::Text(t@),
        }
    }
}

/// A key as characters.
pub open spec fn key_view(k: Option<Option<String>>) -> Option<Option<Seq<char>>> {
    match k {
        None => None,
        Some(None) => Some(None),
        Some(Some(s)) => Some(Some(s@)),
    }
}

impl<'a> KeySource<'a> {
    /// Whether the column was taken apart as it should be.
    pub open spec fn wf(self) -> bool {
        match self {
            KeySource::Dict(d) => d.wf(),
            KeySource::Text(t) => t.wf(),
        }
    }

    fn key(&self, i: usize) -> (r: Option<Option<String>>)
        requires
            self.wf(),
        ensures
            key_view(r) == self@.key(i as int),
    {
        match self {
            KeySource::Dict(d) => {
                if i >= d.rows {
                    return Some(None);
                }
                let k: u32 = d.index(i);
                if k == 0 {
                    return Some(Some(String::new()));
                }
                if k as u64 > d.size as u64 {
                    return Some(None);
                }
                match d.value((k - 1) as usize) {
                    None => None,
                    Some(v) => Some(Some(text_or_empty(v))),
                }
            },
            KeySource::Text(t) => {
                if i >= t.count {
                    return Some(None);
                }
                let e: usize = t.end(i);
                if e > t.rest.len() {
                    return Some(None);
                }
                let s: usize = t.start(i);
                if s > e {
                    return None;
                }
                match text_from_bytes(slice_subrange(t.rest, s, e)) {
                    None => Some(None),
                    Some(text) => Some(Some(text.to_owned())),
                }
            },
        }
    }
}

/// The groups after the first `n` rows were credited one by one; `None` where a row cannot be read.
pub open spec fn credit_rows(
    ts: Seq<TallySeq>,
    fl: FilterSeq,
    keys: KeySeq,
    agg: Option<AggSeq>,
    del: Option<Seq<u8>>,
    n: int,
) -> Option<Seq<TallySeq>>
    decreases n,
{
    if n <= 0 {
        Some(ts)
    } else {
        match credit_rows(ts, fl, keys, agg, del, n - 1) {
            None => None,
            Some(before) => if !row_open(del, None, n - 1) {
                Some(before)
            } else {
                match fl.hit(n - 1) {
                    None => None,
                    Some(false) => Some(before),
                    Some(true) => match keys.key(n - 1) {
                        None => None,
                        Some(None) => Some(before),
                        Some(Some(key)) => Some(credit(before, key, 1, part_of(agg, n - 1))),
                    },
                }
            },
        }
    }
}

proof fn credit_rows_failed(
    ts: Seq<TallySeq>,
    fl: FilterSeq,
    keys: KeySeq,
    agg: Option<AggSeq>,
    del: Option<Seq<u8>>,
    j: int,
    n: int,
)
    requires
        0 <= j <= n,
        credit_rows(ts, fl, keys, agg, del, j) is None,
    ensures
        credit_rows(ts, fl, keys, agg, del, n) is None,
    decreases n,
{
    if j < n {
        credit_rows_failed(ts, fl, keys, agg, del, j, n - 1);
    }
}

fn add_rows(
    ts: &mut Vec<GroupTally>,
    fl: &RowFilter,
    keys: &KeySource,
    agg: &Option<AggSource>,
    del: Option<&[u8]>,
    n: usize,
) -> (ok: bool)
    requires
        fl.wf(),
        keys.wf(),
        agg_wf(*agg),
        n <= fl@.rows(),
        sound(tallies_view(old(ts)@)),
        total(tallies_view(old(ts)@)) + n <= i64::MAX,
    ensures
        ok ==> credit_rows(
            tallies_view(old(ts)@),
            fl@,
            keys@,
            agg_view(*agg),
            slice_view(del),
            n as int,
        ) == Some(tallies_view(final(ts)@)) && sound(tallies_view(final(ts)@)) && total(
            tallies_view(final(ts)@),
        ) <= total(tallies_view(old(ts)@)) + n,
        !ok ==> credit_rows(
            tallies_view(old(ts)@),
            fl@,
            keys@,
            agg_view(*agg),
            slice_view(del),
            n as int,
        ) is None,
{
    let ghost ts0 = tallies_view(ts@);
    let ghost a = agg_view(*agg);
    let ghost d = slice_view(del);
    let mut i: usize = 0;
    while i < n
        invariant
            i <= n,
            fl.wf(),
            keys.wf(),
            agg_wf(*agg),
            n <= fl@.rows(),
            ts0 == tallies_view(old(ts)@),
            a == agg_view(*agg),
            d == slice_view(del),
            total(ts0) + n <= i64::MAX,
            sound(tallies_view(ts@)),
            total(tallies_view(ts@)) <= total(ts0) + i,
            credit_rows(ts0, fl@, keys@, a, d, i as int) == Some(tallies_view(ts@)),
        decreases n - i,
    {
        if is_open(del, None, i) {
            match fl.hit(i) {
                None => {
                    proof {
                        credit_rows_failed(ts0, fl@, keys@, a, d, i + 1, n as int);
                    }
                    return false;
                },
                Some(false) => {},
                Some(true) => {
                    match keys.key(i) {
                        None => {
                            proof {
                                credit_rows_failed(ts0, fl@, keys@, a, d, i + 1, n as int);
                            }
                            return false;
                        },
                        Some(None) => {},
                        Some(Some(key)) => {
                            let part: Vec<F64> = get_part(agg, i);
                            add_credit(ts, key, 1, part);
                        },
                    }
                },
            }
        }
        i = i + 1;
    }
    true
}

/// How many of the first `n` rows match and have key index `k`.
pub open spec fn slot_count(
    fl: FilterSeq,
    d: DictTextSeq,
    del: Option<Seq<u8>>,
    k: int,
    n: int,
) -> int
    decreases n,
{
    if n <= 0 {
        0
    } else {
        slot_count(fl, d, del, k, n - 1) + if row_open(del, None, n - 1) && fl.hit(n - 1) == Some(
            true,
        ) && d.index(n - 1) == k {
            1int
        } else {
            0
        }
    }
}

/// The numbers of those rows.
pub open spec fn slot_part(
    fl: FilterSeq,
    d: DictTextSeq,
    agg: Option<AggSeq>,
    del: Option<Seq<u8>>,
    k: int,
    n: int,
) -> Seq<F64>
    decreases n,
{
    if n <= 0 {
        Seq::empty()
    } else {
        let before = slot_part(fl, d, agg, del, k, n - 1);
        if row_open(del, None, n - 1) && fl.hit(n - 1) == Some(true) && d.index(n - 1) == k {
            before + part_of(agg, n - 1)
        } else {
            before
        }
    }
}

/// Rows that match and have one of the key indices `1..=k`.
pub open spec fn slots_total(
    fl: FilterSeq,
    d: DictTextSeq,
    del: Option<Seq<u8>>,
    k: int,
    n: int,
) -> int
    decreases k,
{
    if k <= 0 {
        0
    } else {
        slots_total(fl, d, del, k - 1, n) + slot_count(fl, d, del, k, n)
    }
}

proof fn slots_total_step(fl: FilterSeq, d: DictTextSeq, del: Option<Seq<u8>>, k: int, n: int)
    requires
        0 < n,
        0 <= k,
    ensures
        slots_total(fl, d, del, k, n) == slots_total(fl, d, del, k, n - 1) + if row_open(
            del,
            None,
            n - 1,
        ) && fl.hit(n - 1) == Some(true) && 1 <= d.index(n - 1) <= k {
            1int
        } else {
            0
        },
    decreases k,
{
    if k > 0 {
        slots_total_step(fl, d, del, k - 1, n);
    }
}

proof fn slots_total_bound(fl: FilterSeq, d: DictTextSeq, del: Option<Seq<u8>>, k: int, n: int)
    requires
        0 <= n,
        0 <= k,
    ensures
        0 <= slots_total(fl, d, del, k, n) <= n,
    decreases n,
{
    if n > 0 {
        slots_total_bound(fl, d, del, k, n - 1);
        slots_total_step(fl, d, del, k, n);
    } else {
        slots_total_empty(fl, d, del, k);
    }
}

proof fn slots_total_empty(fl: FilterSeq, d: DictTextSeq, del: Option<Seq<u8>>, k: int)
    requires
        0 <= k,
    ensures
        slots_total(fl, d, del, k, 0) == 0,
    decreases k,
{
    if k > 0 {
        slots_total_empty(fl, d, del, k - 1);
    }
}

proof fn slot_count_bound(fl: FilterSeq, d: DictTextSeq, del: Option<Seq<u8>>, k: int, n: int)
    requires
        0 <= n,
    ensures
        0 <= slot_count(fl, d, del, k, n) <= n,
    decreases n,
{
    if n > 0 {
        slot_count_bound(fl, d, del, k, n - 1);
    }
}

/// The groups after the key indices `1..=k` were credited with their rows among the first `n`;
/// `None` where the value of such an index cannot be read.
pub open spec fn credit_slots(
    ts: Seq<TallySeq>,
    fl: FilterSeq,
    d: DictTextSeq,
    agg: Option<AggSeq>,
    del: Option<Seq<u8>>,
    n: int,
    k: int,
) -> Option<Seq<TallySeq>>
    decreases k,
{
    if k <= 0 {
        Some(ts)
    } else {
        match credit_slots(ts, fl, d, agg, del, n, k - 1) {
            None => None,
            Some(before) => if slot_count(fl, d, del, k, n) == 0 {
                Some(before)
            } else {
                match d.value(k - 1) {
                    None => None,
                    Some(v) => Some(
                        credit(
                            before,
                            text_of(v),
                            slot_count(fl, d, del, k, n),
                            slot_part(fl, d, agg, del, k, n),
                        ),
                    ),
                }
            },
        }
    }
}

proof fn credit_slots_failed(
    ts: Seq<TallySeq>,
    fl: FilterSeq,
    d: DictTextSeq,
    agg: Option<AggSeq>,
    del: Option<Seq<u8>>,
    n: int,
    j: int,
    k: int,
)
    requires
        0 <= j <= k,
        credit_slots(ts, fl, d, agg, del, n, j) is None,
    ensures
        credit_slots(ts, fl, d, agg, del, n, k) is None,
    decreases k,
{
    if j < k {
        credit_slots_failed(ts, fl, d, agg, del, n, j, k - 1);
    }
}

/// The rows of one key index.
struct Slot {
    count: i64,
    part: Vec<F64>,
}

/// Sorts the first `n` rows that match by their key index.
fn fill_slots(
    fl: &RowFilter,
    d: &DictText,
    agg: &Option<AggSource>,
    del: Option<&[u8]>,
    n: usize,
) -> (r: Vec<Slot>)
    requires
        fl.wf(),
        fl is Dict,
        d.wf(),
        agg_wf(*agg),
        n <= fl@.rows(),
        n <= d.rows,
        n <= i64::MAX,
    ensures
        r@.len() == d.size + 1,
        forall|k: int|
            0 <= k < r@.len() ==> (#[trigger] r@[k]).count == slot_count(
                fl@,
                d@,
                slice_view(del),
                k,
                n as int,
            ) && r@[k].part@ == slot_part(
                fl@,
                d@,
                agg_view(*agg),
                slice_view(del),
                k,
                n as int,
            ),
{
    let ghost a = agg_view(*agg);
    let ghost dl = slice_view(del);
    assert(d.size * 4 <= d.offsets.len());
    let mut slots: Vec<Slot> = Vec::new();
    let mut s: usize = 0;
    while s < d.size + 1
        invariant
            s <= d.size + 1,
            d.size < usize::MAX,
            slots@.len() == s,
            forall|k: int|
                0 <= k < s ==> (#[trigger] slots@[k]).count == 0 && slots@[k].part@ == Seq::<
                    F64,
                >::empty(),
        decreases d.size + 1 - s,
    {
        let part: Vec<F64> = Vec::new();
        slots.push(Slot { count: 0, part });
        s = s + 1;
    }
    let mut i: usize = 0;
    while i < n
        invariant
            i <= n,
            fl.wf(),
            fl is Dict,
            d.wf(),
            agg_wf(*agg),
            n <= fl@.rows(),
            n <= d.rows,
            n <= i64::MAX,
            a == agg_view(*agg),
            dl == slice_view(del),
            slots@.len() == d.size + 1,
            forall|k: int|
                0 <= k < slots@.len() ==> (#[trigger] slots@[k]).count == slot_count(
                    fl@,
                    d@,
                    dl,
                    k,
                    i as int,
                ) && slots@[k].part@ == slot_part(fl@, d@, a, dl, k, i as int),
        decreases n - i,
    {
        let hit: bool = match fl.hit(i) {
            Some(b) => b,
            None => false,
        };
        let ghost before = slots@;
        if is_open(del, None, i) && hit {
            let k: u32 = d.index(i);
            if (k as u64) < slots.len() as u64 {
                let at: usize = k as usize;
                proof {
                    slot_count_bound(fl@, d@, dl, at as int, i as int);
                    assert(slots@[at as int].count == slot_count(fl@, d@, dl, at as int, i as int));
                }
                let mut slot: Slot = slots.remove(at);
                slot.count = slot.count + 1;
                let mut part: Vec<F64> = get_part(agg, i);
                slot.part.append(&mut part);
                let ghost now = slot;
                slots.insert(at, slot);
                proof {
                    assert(slots@ =~= before.update(at as int, now));
                }
            }
        }
        proof {
            assert forall|k: int| 0 <= k < slots@.len() implies (#[trigger] slots@[k]).count
                == slot_count(fl@, d@, dl, k, i + 1) && slots@[k].part@ == slot_part(
                fl@,
                d@,
                a,
                dl,
                k,
                i + 1,
            ) by {
                assert(before[k].count == slot_count(fl@, d@, dl, k, i as int));
            }
        }
        i = i + 1;
    }
    slots
}

fn add_slots(
    ts: &mut Vec<GroupTally>,
    fl: &RowFilter,
    d: &DictText,
    agg: &Option<AggSource>,
    del: Option<&[u8]>,
    n: usize,
) -> (ok: bool)
    requires
        fl.wf(),
        fl is Dict,
        d.wf(),
        agg_wf(*agg),
        n <= fl@.rows(),
        n <= d.rows,
        sound(tallies_view(old(ts)@)),
        0 <= total(tallies_view(old(ts)@)),
        total(tallies_view(old(ts)@)) + n <= i64::MAX,
    ensures
        ok ==> credit_slots(
            tallies_view(old(ts)@),
            fl@,
            d@,
            agg_view(*agg),
            slice_view(del),
            n as int,
            d.size as int,
        ) == Some(tallies_view(final(ts)@)) && sound(tallies_view(final(ts)@)) && total(
            tallies_view(final(ts)@),
        ) <= total(tallies_view(old(ts)@)) + n,
        !ok ==> credit_slots(
            tallies_view(old(ts)@),
            fl@,
            d@,
            agg_view(*agg),
            slice_view(del),
            n as int,
            d.size as int,
        ) is None,
{
    let ghost ts0 = tallies_view(ts@);
    let ghost a = agg_view(*agg);
    let ghost dl = slice_view(del);
    let mut slots: Vec<Slot> = fill_slots(fl, d, agg, del, n);
    let ghost filled = slots@;
    let mut k: usize = 0;
    while k < d.size
        invariant
            k <= d.size,
            d.wf(),
            ts0 == tallies_view(old(ts)@),
            a == agg_view(*agg),
            dl == slice_view(del),
            0 <= total(ts0),
            total(ts0) + n <= i64::MAX,
            filled.len() == d.size + 1,
            slots@.len() == filled.len(),
            forall|j: int| k < j < slots@.len() ==> slots@[j] == #[trigger] filled[j],
            forall|j: int|
                0 <= j < filled.len() ==> (#[trigger] filled[j]).count == slot_count(
                    fl@,
                    d@,
                    dl,
                    j,
                    n as int,
                ) && filled[j].part@ == slot_part(fl@, d@, a, dl, j, n as int),
            sound(tallies_view(ts@)),
            total(tallies_view(ts@)) == total(ts0) + slots_total(fl@, d@, dl, k as int, n as int),
            credit_slots(ts0, fl@, d@, a, dl, n as int, k as int) == Some(tallies_view(ts@)),
        decreases d.size - k,
    {
        proof {
            slots_total_bound(fl@, d@, dl, k + 1, n as int);
            slot_count_bound(fl@, d@, dl, k + 1, n as int);
            assert(slots@[k + 1] == filled[k + 1]);
            assert(d.size * 4 <= d.offsets.len());
        }
        let at: usize = k + 1;
        let count: i64 = slots[at].count;
        if count > 0 {
            match d.value(k) {
                None => {
                    proof {
                        credit_slots_failed(ts0, fl@, d@, a, dl, n as int, k + 1, d.size as int);
                    }
                    return false;
                },
                Some(v) => {
                    let blank: Vec<F64> = Vec::new();
                    let slot: Slot = slots.remove(at);
                    slots.insert(at, Slot { count: 0, part: blank });
                    add_credit(ts, text_or_empty(v), count, slot.part);
                },
            }
        }
        k = k + 1;
    }
    proof {
        slots_total_bound(fl@, d@, dl, d.size as int, n as int);
    }
    true
}

/// What is grouped: the filter, the keys and the numbers.
pub struct GroupQuery {
    pub filter: usize,
    pub filter_dict: bool,
    pub key: usize,
    pub key_dict: bool,
    pub agg: Option<usize>,
    pub agg_float: bool,
}

/// The numbers of a row group that are aggregated: those of a plain column. A failure where there
/// are fewer numbers than the column counts.
pub open spec fn agg_numbers(body: Seq<u8>, at: int, rows: int, float: bool) -> Result<
    Option<AggSeq>,
    ScanError,
> {
    if at + 1 >= body.len() || body[at] != COL_ENCODING_PLAIN || body.len() < at + 9 {
        Ok(None)
    } else {
        let payload = tail(body, at + 1);
        let words = tail(payload, 8);
        let n = min2(crate::bytes::u64_le(payload, 0) as int, rows);
        if n * 8 > words.len() {
            Err(ScanError::Corrupt)
        } else {
            Ok(
                Some(
                    AggSeq {
                        src: if float {
                            NumSeq::PlainReal(words)
                        } else {
                            NumSeq::PlainInt(words)
                        },
                        n,
                    },
                ),
            )
        }
    }
}

fn get_agg_numbers<'a>(body: &'a [u8], at: u64, rows: u32, float: bool) -> (r: Result<
    Option<AggSource<'a>>,
    ScanError,
>)
    ensures
        match r {
            Err(e) => agg_numbers(body@, at as int, rows as int, float) == Err::<
                Option<AggSeq>,
                ScanError,
            >(e),
            Ok(a) => agg_numbers(body@, at as int, rows as int, float) == Ok::<
                Option<AggSeq>,
                ScanError,
            >(agg_view(a)) && agg_wf(a),
        },
{
    if at as u128 + 1 >= body.len() as u128 || body[at as usize] != COL_ENCODING_PLAIN
        || (body.len() as u128) < at as u128 + 9 {
        return Ok(None);
    }
    let payload: &'a [u8] = get_tail(body, at as usize + 1);
    let words: &'a [u8] = get_tail(payload, 8);
    let n: usize = min_u64(crate::bytes::read_u64(payload, 0), rows as u64) as usize;
    if n > words.len() / 8 {
        return Err(ScanError::Corrupt);
    }
    let src: NumSource<'a> = if float {
        NumSource::PlainReal(words)
    } else {
        NumSource::PlainInt(words)
    };
    Ok(Some(AggSource { src, n }))
}

/// The rows of a column that match: `None` where none can.
pub open spec fn filter_of(dict: bool, data: Seq<u8>, target: Seq<u8>) -> Result<
    Option<FilterSeq>,
    ScanError,
> {
    if !dict {
        match strict_text(data) {
            Err(e) => Err(e),
            Ok(None) => Ok(None),
            Ok(Some(t)) => Ok(Some(FilterSeq::Text(t, target))),
        }
    } else if data.len() >= 16 && crate::bytes::u64_le(data, 8) == 0 {
        Ok(None)
    } else {
        match dict_text(data) {
            Err(e) => Err(e),
            Ok(None) => Ok(None),
            Ok(Some(d)) => match d.find(target, 0) {
                Err(e) => Err(e),
                Ok(None) => Ok(None),
                Ok(Some(k)) => Ok(Some(FilterSeq::Dict(d, k + 1))),
            },
        }
    }
}

fn get_filter<'a>(dict: bool, data: &'a [u8], target: &'a [u8]) -> (r: Result<
    Option<RowFilter<'a>>,
    ScanError,
>)
    ensures
        match r {
            Err(e) => filter_of(dict, data@, target@) == Err::<Option<FilterSeq>, ScanError>(e),
            Ok(None) => filter_of(dict, data@, target@) == Ok::<Option<FilterSeq>, ScanError>(None),
            Ok(Some(fl)) => filter_of(dict, data@, target@) == Ok::<Option<FilterSeq>, ScanError>(
                Some(fl@),
            ) && fl.wf() && (fl is Dict) == dict,
        },
{
    if !dict {
        return match read_strict_text(data) {
            Err(e) => Err(e),
            Ok(None) => Ok(None),
            Ok(Some(t)) => Ok(Some(RowFilter::Text(t, target))),
        };
    }
    if data.len() >= 16 && crate::bytes::read_u64(data, 8) == 0 {
        return Ok(None);
    }
    match read_dict_text(data) {
        Err(e) => Err(e),
        Ok(None) => Ok(None),
        Ok(Some(d)) => match d.find(target) {
            Err(e) => Err(e),
            Ok(None) => Ok(None),
            Ok(Some(k)) => Ok(Some(RowFilter::Dict(d, k as u64 + 1))),
        },
    }
}

/// Whether every value of a dictionary lies in its data.
pub open spec fn values_lie(d: DictTextSeq) -> bool {
    forall|k: int| 0 <= k < d.size ==> (#[trigger] d.value(k)) is Some
}

fn do_values_lie(d: &DictText) -> (r: bool)
    requires
        d.wf(),
    ensures
        r == values_lie(d@),
{
    let mut k: usize = 0;
    while k < d.size
        invariant
            k <= d.size,
            d.wf(),
            forall|j: int| 0 <= j < k ==> (#[trigger] d@.value(j)) is Some,
        decreases d.size - k,
    {
        if d.value(k).is_none() {
            assert(d@.value(k as int) is None);
            return false;
        }
        k = k + 1;
    }
    true
}

/// The groups after a row group whose three columns were found. Where both the filter and the keys
/// are dictionaries, the rows are gathered by key index first and rows without a key are left out.
pub open spec fn credit_group(
    ts: Seq<TallySeq>,
    q: GroupQuery,
    filter: Seq<u8>,
    keys: Seq<u8>,
    agg: Option<AggSeq>,
    del: Option<Seq<u8>>,
    target: Seq<u8>,
    rows: int,
) -> Result<Seq<TallySeq>, ScanError> {
    if q.filter_dict && q.key_dict {
        match filter_of(true, filter, target) {
            Err(e) => Err(e),
            Ok(None) => Ok(ts),
            Ok(Some(fl)) => match dict_text(keys) {
                Err(e) => Err(e),
                Ok(None) => Ok(ts),
                Ok(Some(d)) => match credit_slots(
                    ts,
                    fl,
                    d,
                    agg,
                    del,
                    min2(min2(fl.rows(), rows), d.rows),
                    d.size,
                ) {
                    None => Err(ScanError::Corrupt),
                    Some(now) => Ok(now),
                },
            },
        }
    } else {
        let source = if q.key_dict {
            match dict_text(keys) {
                Err(e) => Err(e),
                Ok(None) => Ok(None),
                Ok(Some(d)) => if values_lie(d) {
                    Ok(Some(KeySeq::Dict(d)))
                } else {
                    Err(ScanError::Corrupt)
                },
            }
        } else {
            match strict_text(keys) {
                Err(e) => Err(e),
                Ok(None) => Ok(None),
                Ok(Some(t)) => Ok(Some(KeySeq::Text(t))),
            }
        };
        match source {
            Err(e) => Err(e),
            Ok(None) => Ok(ts),
            Ok(Some(source)) => match filter_of(q.filter_dict, filter, target) {
                Err(e) => Err(e),
                Ok(None) => Ok(ts),
                Ok(Some(fl)) => match credit_rows(
                    ts,
                    fl,
                    source,
                    agg,
                    del,
                    min2(fl.rows(), rows),
                ) {
                    None => Err(ScanError::Corrupt),
                    Some(now) => Ok(now),
                },
            },
        }
    }
}

/// Whether a step gave `want`, with the groups in `ts`.
pub open spec fn credited(
    r: Result<(), ScanError>,
    ts: Seq<TallySeq>,
    want: Result<Seq<TallySeq>, ScanError>,
) -> bool {
    match r {
        Err(e) => want == Err::<Seq<TallySeq>, ScanError>(e),
        Ok(_) => want == Ok::<Seq<TallySeq>, ScanError>(ts),
    }
}

fn add_group(
    ts: &mut Vec<GroupTally>,
    q: &GroupQuery,
    filter: &[u8],
    keys: &[u8],
    agg: &Option<AggSource>,
    del: Option<&[u8]>,
    target: &[u8],
    rows: u32,
) -> (r: Result<(), ScanError>)
    requires
        agg_wf(*agg),
        sound(tallies_view(old(ts)@)),
        0 <= total(tallies_view(old(ts)@)),
        total(tallies_view(old(ts)@)) + rows <= i64::MAX,
    ensures
        credited(
            r,
            tallies_view(final(ts)@),
            credit_group(
                tallies_view(old(ts)@),
                *q,
                filter@,
                keys@,
                agg_view(*agg),
                slice_view(del),
                target@,
                rows as int,
            ),
        ),
        r is Ok ==> sound(tallies_view(final(ts)@)) && total(tallies_view(final(ts)@)) <= total(
            tallies_view(old(ts)@),
        ) + rows,
{
    if q.filter_dict && q.key_dict {
        let fl: RowFilter = match get_filter(true, filter, target) {
            Err(e) => {
                return Err(e);
            },
            Ok(None) => {
                return Ok(());
            },
            Ok(Some(fl)) => fl,
        };
        let d: DictText = match read_dict_text(keys) {
            Err(e) => {
                return Err(e);
            },
            Ok(None) => {
                return Ok(());
            },
            Ok(Some(d)) => d,
        };
        let n: usize = min_u64(
            min_u64(fl.rows() as u64, rows as u64),
            d.rows as u64,
        ) as usize;
        return if add_slots(ts, &fl, &d, agg, del, n) {
            Ok(())
        } else {
            Err(ScanError::Corrupt)
        };
    }
    let source: KeySource = if q.key_dict {
        match read_dict_text(keys) {
            Err(e) => {
                return Err(e);
            },
            Ok(None) => {
                return Ok(());
            },
            Ok(Some(d)) => {
                if !do_values_lie(&d) {
                    return Err(ScanError::Corrupt);
                }
                KeySource::Dict(d)
            },
        }
    } else {
        match read_strict_text(keys) {
            Err(e) => {
                return Err(e);
            },
            Ok(None) => {
                return Ok(());
            },
            Ok(Some(t)) => KeySource::Text(t),
        }
    };
    let fl: RowFilter = match get_filter(q.filter_dict, filter, target) {
        Err(e) => {
            return Err(e);
        },
        Ok(None) => {
            return Ok(());
        },
        Ok(Some(fl)) => fl,
    };
    let n: usize = min_u64(fl.rows() as u64, rows as u64) as usize;
    if add_rows(ts, &fl, &source, agg, del, n) {
        Ok(())
    } else {
        Err(ScanError::Corrupt)
    }
}

/// The data of a plain column of a row group behind its null bitmap and its encoding.
pub enum PlainColumn {
    /// Nothing is there.
    Absent,
    /// It is encoded otherwise.
    Encoded,
    /// The data.
    Data(Seq<u8>),
}

/// The data of a column that starts at `o`.
pub open spec fn plain_column(body: Seq<u8>, o: int, bm: int) -> PlainColumn {
    if o + bm >= body.len() {
        PlainColumn::Absent
    } else if body[o + bm] != COL_ENCODING_PLAIN {
        PlainColumn::Encoded
    } else {
        PlainColumn::Data(tail(body, o + bm + 1))
    }
}

/// The data of a column: `Err(true)` where it is encoded otherwise, `Err(false)` where nothing is
/// there.
fn get_plain_column<'a>(body: &'a [u8], o: u32, bm: u64) -> (r: Result<&'a [u8], bool>)
    requires
        bm <= 0x2000_0000,
    ensures
        match r {
            Err(encoded) => plain_column(body@, o as int, bm as int) == if encoded {
                PlainColumn::Encoded
            } else {
                PlainColumn::Absent
            },
            Ok(s) => plain_column(body@, o as int, bm as int) == PlainColumn::Data(s@),
        },
{
    let at: u64 = o as u64 + bm;
    if at >= body.len() as u64 {
        return Err(false);
    }
    if body[at as usize] != COL_ENCODING_PLAIN {
        return Err(true);
    }
    Ok(get_tail(body, at as usize + 1))
}

impl GroupQuery {
    /// Whether the places of the columns are on record for every row group with rows.
    pub open spec fn placed(self, f: V4Footer) -> bool {
        forall|i: int|
            0 <= i < f.row_groups@.len() && f.row_groups@[i].row_count > 0 ==> (
            #[trigger] f.rcix(i, self.filter as int)) is Some && f.rcix(
                i,
                self.key as int,
            ) is Some && (self.agg matches Some(a) ==> f.rcix(i, a as int) is Some)
    }

    fn is_placed(&self, f: &V4Footer) -> (r: bool)
        ensures
            r == self.placed(*f),
    {
        let mut i: usize = 0;
        while i < f.row_groups.len()
            invariant
                i <= f.row_groups@.len(),
                forall|k: int|
                    0 <= k < i && f.row_groups@[k].row_count > 0 ==> (#[trigger] f.rcix(
                        k,
                        self.filter as int,
                    )) is Some && f.rcix(k, self.key as int) is Some && (self.agg matches Some(a)
                        ==> f.rcix(k, a as int) is Some),
            decreases f.row_groups@.len() - i,
        {
            if f.row_groups[i].row_count > 0 {
                let agg: bool = match self.agg {
                    None => true,
                    Some(a) => f.column_offset(i, a).is_some(),
                };
                if f.column_offset(i, self.filter).is_none() || f.column_offset(
                    i,
                    self.key,
                ).is_none() || !agg {
                    assert(f.rcix(i as int, self.filter as int) is None || f.rcix(
                        i as int,
                        self.key as int,
                    ) is None || f.rcix(i as int, self.agg->0 as int) is None);
                    return false;
                }
            }
            i = i + 1;
        }
        true
    }

    /// The groups after row group `i`; `None` where it is compressed or untagged, or where the
    /// filter or the keys are encoded otherwise than plain.
    pub open spec fn group(
        self,
        f: V4Footer,
        file: Seq<u8>,
        target: Seq<u8>,
        i: int,
        ts: Seq<TallySeq>,
    ) -> Result<Option<Seq<TallySeq>>, ScanError> {
        let meta = f.row_groups@[i];
        let rows = meta.row_count as int;
        let bm = bitmap_len(rows);
        if rows == 0 {
            Ok(Some(ts))
        } else {
            match stored_group(meta, file) {
                Err(ScanError::PastEof) => Err(ScanError::PastEof),
                Err(_) => Ok(Some(ts)),
                Ok(s) => {
                    let body = tail(s, 32);
                    if s[28] != RG_COMPRESS_NONE || s[29] < 1 {
                        Ok(None)
                    } else {
                        match plain_column(body, f.rcix(i, self.filter as int)->0, bm) {
                            PlainColumn::Absent => Ok(Some(ts)),
                            PlainColumn::Encoded => Ok(None),
                            PlainColumn::Data(filter) => match plain_column(
                                body,
                                f.rcix(i, self.key as int)->0,
                                bm,
                            ) {
                                PlainColumn::Absent => Ok(Some(ts)),
                                PlainColumn::Encoded => Ok(None),
                                PlainColumn::Data(keys) => self.credited(
                                    ts,
                                    filter,
                                    keys,
                                    match self.agg {
                                        None => Ok(None),
                                        Some(a) => agg_numbers(
                                            body,
                                            f.rcix(i, a as int)->0 + bm,
                                            rows,
                                            self.agg_float,
                                        ),
                                    },
                                    if meta.deletion_count > 0 {
                                        window(body, id_section(rows, s[30]), bm)
                                    } else {
                                        None
                                    },
                                    target,
                                    rows,
                                ),
                            },
                        }
                    }
                },
            }
        }
    }

    /// The groups after the columns of a row group were read.
    pub open spec fn credited(
        self,
        ts: Seq<TallySeq>,
        filter: Seq<u8>,
        keys: Seq<u8>,
        agg: Result<Option<AggSeq>, ScanError>,
        del: Option<Seq<u8>>,
        target: Seq<u8>,
        rows: int,
    ) -> Result<Option<Seq<TallySeq>>, ScanError> {
        match agg {
            Err(e) => Err(e),
            Ok(agg) => match credit_group(ts, self, filter, keys, agg, del, target, rows) {
                Err(e) => Err(e),
                Ok(now) => Ok(Some(now)),
            },
        }
    }

    fn add<'a>(
        &self,
        f: &V4Footer,
        file: &'a [u8],
        target: &'a [u8],
        i: usize,
        ts: &mut Vec<GroupTally>,
    ) -> (r: Result<bool, ScanError>)
        requires
            i < f.row_groups@.len(),
            self.placed(*f),
            sound(tallies_view(old(ts)@)),
            0 <= total(tallies_view(old(ts)@)),
            total(tallies_view(old(ts)@)) + f.row_groups@[i as int].row_count <= i64::MAX,
        ensures
            match r {
                Err(e) => self.group(
                    *f,
                    file@,
                    target@,
                    i as int,
                    tallies_view(old(ts)@),
                ) == Err::<Option<Seq<TallySeq>>, ScanError>(e),
                Ok(false) => self.group(
                    *f,
                    file@,
                    target@,
                    i as int,
                    tallies_view(old(ts)@),
                ) == Ok::<Option<Seq<TallySeq>>, ScanError>(None),
                Ok(true) => self.group(
                    *f,
                    file@,
                    target@,
                    i as int,
                    tallies_view(old(ts)@),
                ) == Ok::<Option<Seq<TallySeq>>, ScanError>(Some(tallies_view(final(ts)@)))
                    && sound(tallies_view(final(ts)@)) && total(tallies_view(final(ts)@)) <= total(
                    tallies_view(old(ts)@),
                ) + f.row_groups@[i as int].row_count,
            },
    {
        let meta: RowGroupMeta = f.row_groups[i];
        let rows: u32 = meta.row_count;
        if rows == 0 {
            return Ok(true);
        }
        let bm: u64 = rg_bitmap_len(rows);
        let s: &'a [u8] = match get_stored(&meta, file) {
            Err(ScanError::PastEof) => {
                return Err(ScanError::PastEof);
            },
            Err(_) => {
                return Ok(true);
            },
            Ok(s) => s,
        };
        let body: &'a [u8] = get_tail(s, 32);
        if s[28] != RG_COMPRESS_NONE || s[29] < 1 {
            return Ok(false);
        }
        assert(f.rcix(i as int, self.filter as int) is Some);
        let fo: u32 = match f.column_offset(i, self.filter) {
            Some(o) => o,
            None => 0,
        };
        let ko: u32 = match f.column_offset(i, self.key) {
            Some(o) => o,
            None => 0,
        };
        let filter: &'a [u8] = match get_plain_column(body, fo, bm) {
            Err(encoded) => {
                return Ok(!encoded);
            },
            Ok(d) => d,
        };
        let keys: &'a [u8] = match get_plain_column(body, ko, bm) {
            Err(encoded) => {
                return Ok(!encoded);
            },
            Ok(d) => d,
        };
        let agg: Option<AggSource<'a>> = match self.agg {
            None => None,
            Some(a) => {
                let ao: u32 = match f.column_offset(i, a) {
                    Some(o) => o,
                    None => 0,
                };
                match get_agg_numbers(body, ao as u64 + bm, rows, self.agg_float) {
                    Err(e) => {
                        return Err(e);
                    },
                    Ok(x) => x,
                }
            },
        };
        let del: Option<&'a [u8]> = if meta.deletion_count > 0 {
            get_window(body, rg_id_section_len(rows, s[30]), bm)
        } else {
            None
        };
        match add_group(ts, self, filter, keys, &agg, del, target, rows) {
            Err(e) => Err(e),
            Ok(_) => Ok(true),
        }
    }

    /// The groups of the first `n` row groups.
    pub open spec fn tallies(self, f: V4Footer, file: Seq<u8>, target: Seq<u8>, n: int) -> Result<
        Option<Seq<TallySeq>>,
        ScanError,
    >
        decreases n,
    {
        if n <= 0 {
            Ok(Some(Seq::empty()))
        } else {
            match self.tallies(f, file, target, n - 1) {
                Ok(Some(ts)) => self.group(f, file, target, n - 1, ts),
                other => other,
            }
        }
    }

    proof fn tallies_over(self, f: V4Footer, file: Seq<u8>, target: Seq<u8>, j: int, n: int)
        requires
            0 <= j <= n,
            !(self.tallies(f, file, target, j) matches Ok(Some(_))),
        ensures
            self.tallies(f, file, target, n) == self.tallies(f, file, target, j),
        decreases n,
    {
        if j < n {
            self.tallies_over(f, file, target, j, n - 1);
        }
    }

    fn collect(&self, f: &V4Footer, file: &[u8], target: &[u8]) -> (r: Result<
        Option<Vec<GroupTally>>,
        ScanError,
    >)
        requires
            f.wf(),
            self.placed(*f),
        ensures
            match r {
                Err(e) => self.tallies(
                    *f,
                    file@,
                    target@,
                    f.row_groups@.len() as int,
                ) == Err::<Option<Seq<TallySeq>>, ScanError>(e),
                Ok(None) => self.tallies(
                    *f,
                    file@,
                    target@,
                    f.row_groups@.len() as int,
                ) == Ok::<Option<Seq<TallySeq>>, ScanError>(None),
                Ok(Some(ts)) => self.tallies(
                    *f,
                    file@,
                    target@,
                    f.row_groups@.len() as int,
                ) == Ok::<Option<Seq<TallySeq>>, ScanError>(Some(tallies_view(ts@))) && sound(
                    tallies_view(ts@),
                ),
            },
    {
        let ghost n = f.row_groups@.len() as int;
        let mut ts: Vec<GroupTally> = Vec::new();
        let mut i: usize = 0;
        proof {
            assert(tallies_view(ts@) =~= Seq::empty());
        }
        while i < f.row_groups.len()
            invariant
                i <= f.row_groups@.len(),
                n == f.row_groups@.len(),
                f.wf(),
                self.placed(*f),
                sound(tallies_view(ts@)),
                0 <= total(tallies_view(ts@)) <= rows_before(f.row_groups@, i as int),
                self.tallies(*f, file@, target@, i as int) == Ok::<
                    Option<Seq<TallySeq>>,
                    ScanError,
                >(Some(tallies_view(ts@))),
            decreases f.row_groups@.len() - i,
        {
            proof {
                rows_before_monotonic(f.row_groups@, i + 1, n);
            }
            match self.add(f, file, target, i, &mut ts) {
                Err(e) => {
                    proof {
                        self.tallies_over(*f, file@, target@, i + 1, n);
                    }
                    return Err(e);
                },
                Ok(false) => {
                    proof {
                        self.tallies_over(*f, file@, target@, i + 1, n);
                    }
                    return Ok(None);
                },
                Ok(true) => {
                    proof {
                        if tallies_view(ts@).len() > 0 {
                            total_bounds(tallies_view(ts@), 0);
                        }
                    }
                },
            }
            i = i + 1;
        }
        Ok(Some(ts))
    }
}

/// Whether `x` comes before `y` in the order that is asked for.
pub open spec fn goes_first(x: F64, y: F64, descending: bool) -> bool {
    if descending {
        lt(y, x)
    } else {
        lt(x, y)
    }
}

/// The first place from `i` on whose value `x` comes before.
pub open spec fn result_place(
    s: Seq<(Seq<char>, F64)>,
    x: F64,
    descending: bool,
    i: int,
) -> int
    decreases s.len() - i,
{
    if i >= s.len() || goes_first(x, s[i].1, descending) {
        i
    } else {
        result_place(s, x, descending, i + 1)
    }
}

/// Groups in the order of their values; groups with one value keep their order.
pub open spec fn arranged(s: Seq<(Seq<char>, F64)>, descending: bool) -> Seq<(Seq<char>, F64)>
    decreases s.len(),
{
    if s.len() == 0 {
        s
    } else {
        let before = arranged(s.drop_last(), descending);
        before.insert(result_place(before, s.last().1, descending, 0), s.last())
    }
}

/// What is left after `offset` entries, up to `limit` of them.
pub open spec fn page<T>(s: Seq<T>, offset: int, limit: int) -> Seq<T> {
    s.subrange(min2(offset, s.len() as int), min2(offset + limit, s.len() as int))
}

/// Results as sequences.
pub open spec fn results_view(v: Seq<(String, F64)>) -> Seq<(Seq<char>, F64)> {
    Seq::new(v.len(), |i: int| (v[i].0@, v[i].1))
}

/// The keys of groups with their values.
pub open spec fn with_values(ts: Seq<TallySeq>, values: Seq<F64>) -> Seq<(Seq<char>, F64)> {
    Seq::new(ts.len(), |i: int| (ts[i].key, values[i]))
}

/// Whether each value is one that `finish` gives for its group.
pub open spec fn graded<F: Fn(&GroupTally) -> F64>(
    finish: F,
    ts: Seq<GroupTally>,
    values: Seq<F64>,
) -> bool {
    values.len() == ts.len() && forall|i: int|
        0 <= i < ts.len() ==> finish.ensures((&ts[i],), #[trigger] values[i])
}

fn arrange(v: &mut Vec<(String, F64)>, key: String, value: F64, descending: bool)
    ensures
        results_view(final(v)@) == results_view(old(v)@).insert(
            result_place(results_view(old(v)@), value, descending, 0),
            (key@, value),
        ),
{
    let ghost before = results_view(v@);
    let mut at: usize = 0;
    while at < v.len()
        invariant
            at <= v@.len(),
            before == results_view(v@),
            result_place(before, value, descending, 0) == result_place(
                before,
                value,
                descending,
                at as int,
            ),
        ensures
            at <= v@.len(),
            result_place(before, value, descending, 0) == at,
        decreases v@.len() - at,
    {
        let y: F64 = v[at].1;
        assert(before[at as int].1 == y);
        let first: bool = if descending {
            y.lt(value)
        } else {
            value.lt(y)
        };
        if first {
            break;
        }
        at = at + 1;
    }
    let ghost entry = (key@, value);
    v.insert(at, (key, value));
    proof {
        assert(results_view(v@) =~= before.insert(at as int, entry));
    }
}

/// Results as an answer.
pub open spec fn groups_view(r: Result<Option<Vec<(String, F64)>>, ScanError>) -> Result<
    Option<Seq<(Seq<char>, F64)>>,
    ScanError,
> {
    match r {
        Err(e) => Err(e),
        Ok(None) => Ok(None),
        Ok(Some(v)) => Ok(Some(results_view(v@))),
    }
}

/// Whether `got` are the groups of `tallies`, each with a value that `finish` gives for it, in the
/// order of their values, without the first `offset` and at most `limit` of the rest; no answer where
/// none is left.
pub open spec fn grouped<F: Fn(&GroupTally) -> F64>(
    finish: F,
    tallies: Result<Option<Seq<TallySeq>>, ScanError>,
    descending: bool,
    offset: int,
    limit: int,
    got: Result<Option<Seq<(Seq<char>, F64)>>, ScanError>,
) -> bool {
    match (tallies, got) {
        (Err(e), _) => got == Err::<Option<Seq<(Seq<char>, F64)>>, ScanError>(e),
        (Ok(None), _) => got == Ok::<Option<Seq<(Seq<char>, F64)>>, ScanError>(None),
        (Ok(Some(_)), Err(_)) => false,
        (Ok(Some(ts)), Ok(found)) => exists|groups: Seq<GroupTally>, values: Seq<F64>|
            tallies_view(groups) == ts && #[trigger] graded(finish, groups, values) && {
                let rest = page(arranged(with_values(ts, values), descending), offset, limit);
                match found {
                    None => rest.len() == 0,
                    Some(v) => rest.len() > 0 && v == rest,
                }
            },
    }
}

impl<C: ColumnCodec> OnDemandStorage<C> {
    /// The groups of a query, as far as its columns serve: `None` where a column is not there, has
    /// another type, or is laid out otherwise.
    pub open spec fn group_tallies(
        self,
        filter_col: Seq<char>,
        filter_val: Seq<u8>,
        group_col: Seq<char>,
        agg_col: Option<Seq<char>>,
    ) -> Result<Option<Seq<TallySeq>>, ScanError> {
        match self.footer {
            None => Ok(None),
            Some(f) => match (f.schema.index_of(filter_col), f.schema.index_of(group_col)) {
                (Some(filter), Some(key)) => {
                    let agg = match agg_col {
                        None => None,
                        Some(name) => f.schema.index_of(name),
                    };
                    let q = GroupQuery {
                        filter,
                        filter_dict: f.schema.kind(filter as int) is StringDict,
                        key,
                        key_dict: f.schema.kind(key as int) is StringDict,
                        agg,
                        agg_float: agg is Some && is_float(f.schema.kind(agg->0 as int)),
                    };
                    if !is_text(f.schema.kind(filter as int)) || !is_text(
                        f.schema.kind(key as int),
                    ) || !(agg matches Some(a) ==> aggregated(f.schema.kind(a as int)))
                        || !q.placed(f) {
                        Ok(None)
                    } else {
                        match self.file {
                            None => Err(ScanError::NotOpen),
                            Some(file) => q.tallies(
                                f,
                                file@,
                                filter_val,
                                f.row_groups@.len() as int,
                            ),
                        }
                    }
                },
                _ => Ok(None),
            },
        }
    }

    /// Groups the rows whose `filter_col` is `filter_val` by `group_col`. `finish` gives the value
    /// of a group. The groups come in the order of their values, the first `offset` of them left
    /// out and at most `limit` of the rest; there is no answer where none is left.
    pub fn filter_group_order<F: Fn(&GroupTally) -> F64>(
        &self,
        filter_col: &str,
        filter_val: &str,
        group_col: &str,
        agg_col: Option<&str>,
        finish: F,
        descending: bool,
        limit: usize,
        offset: usize,
    ) -> (r: Result<Option<Vec<(String, F64)>>, ScanError>)
        requires
            self.wf(),
            forall|t: &GroupTally| #[trigger] finish.requires((t,)),
        ensures
            grouped(
                finish,
                self.group_tallies(
                    filter_col@,
                    vstd::utf8::encode_utf8(filter_val@),
                    group_col@,
                    crate::lengths::name_view(agg_col),
                ),
                descending,
                offset as int,
                limit as int,
                groups_view(r),
            ),
    {
        let f: &V4Footer = match &self.footer {
            None => {
                return Ok(None);
            },
            Some(f) => f,
        };
        let (filter, key): (usize, usize) = match (
            f.schema.get_index(filter_col),
            f.schema.get_index(group_col),
        ) {
            (Some(a), Some(b)) => (a, b),
            _ => {
                return Ok(None);
            },
        };
        let agg: Option<usize> = match agg_col {
            None => None,
            Some(name) => f.schema.get_index(name),
        };
        let filter_kind: ColumnType = f.schema.columns[filter].1;
        let key_kind: ColumnType = f.schema.columns[key].1;
        let mut agg_float: bool = false;
        if let Some(a) = agg {
            let kind: ColumnType = f.schema.columns[a].1;
            if !is_aggregated(kind) {
                return Ok(None);
            }
            agg_float = kind.is_float();
        }
        let q: GroupQuery = GroupQuery {
            filter,
            filter_dict: matches!(filter_kind, ColumnType::StringDict),
            key,
            key_dict: matches!(key_kind, ColumnType::StringDict),
            agg,
            agg_float,
        };
        if !filter_kind.is_text() || !key_kind.is_text() || !q.is_placed(f) {
            return Ok(None);
        }
        let file: &[u8] = match &self.file {
            None => {
                return Err(ScanError::NotOpen);
            },
            Some(v) => v.as_slice(),
        };
        let groups: Vec<GroupTally> = match q.collect(f, file, filter_val.as_bytes()) {
            Err(e) => {
                return Err(e);
            },
            Ok(None) => {
                return Ok(None);
            },
            Ok(Some(ts)) => ts,
        };
        let sorted: Vec<(String, F64)> = grade(&groups, finish, descending);
        let out: Vec<(String, F64)> = take_page(&sorted, offset, limit);
        if out.len() == 0 {
            return Ok(None);
        }
        Ok(Some(out))
    }
}

/// Gives each group its value and brings the groups into order.
fn grade<F: Fn(&GroupTally) -> F64>(groups: &Vec<GroupTally>, finish: F, descending: bool) -> (r: Vec<
    (String, F64),
>)
    requires
        forall|t: &GroupTally| #[trigger] finish.requires((t,)),
    ensures
        exists|values: Seq<F64>| #[trigger]
            graded(finish, groups@, values) && results_view(r@) == arranged(
                with_values(tallies_view(groups@), values),
                descending,
            ),
{
    let ghost ts = tallies_view(groups@);
    let ghost mut values: Seq<F64> = Seq::empty();
    let mut sorted: Vec<(String, F64)> = Vec::new();
    let mut i: usize = 0;
    proof {
        assert(results_view(sorted@) =~= Seq::empty());
        assert(with_values(ts.take(0), values) =~= Seq::empty());
    }
    while i < groups.len()
        invariant
            i <= groups@.len(),
            ts == tallies_view(groups@),
            forall|t: &GroupTally| #[trigger] finish.requires((t,)),
            values.len() == i,
            forall|k: int| 0 <= k < i ==> finish.ensures((&groups@[k],), #[trigger] values[k]),
            results_view(sorted@) == arranged(with_values(ts.take(i as int), values), descending),
        decreases groups@.len() - i,
    {
        let t: &GroupTally = &groups[i];
        let value: F64 = finish(t);
        let ghost before = with_values(ts.take(i as int), values);
        proof {
            values = values.push(value);
            let now = with_values(ts.take(i + 1), values);
            assert(now.drop_last() =~= before);
            assert(now.last() == (t.key@, value));
        }
        arrange(&mut sorted, t.key.as_str().to_owned(), value, descending);
        i = i + 1;
    }
    proof {
        assert(ts.take(ts.len() as int) =~= ts);
        assert(graded(finish, groups@, values));
    }
    sorted
}

/// What is left after `offset` entries, up to `limit` of them.
fn take_page(sorted: &Vec<(String, F64)>, offset: usize, limit: usize) -> (r: Vec<(String, F64)>)
    ensures
        results_view(r@) == page(results_view(sorted@), offset as int, limit as int),
{
    let ghost all = results_view(sorted@);
    let mut out: Vec<(String, F64)> = Vec::new();
    let mut j: usize = offset;
    while j < sorted.len() && out.len() < limit
        invariant
            all == results_view(sorted@),
            offset <= sorted@.len() ==> offset <= j <= sorted@.len(),
            offset > sorted@.len() ==> j == offset,
            out@.len() == j - offset,
            out@.len() <= limit,
            forall|k: int|
                0 <= k < out@.len() ==> (#[trigger] results_view(out@)[k]) == all[offset + k],
        decreases sorted@.len() - j,
    {
        let ghost prior = results_view(out@);
        out.push((sorted[j].0.as_str().to_owned(), sorted[j].1));
        proof {
            assert(results_view(out@) =~= prior.push(all[j as int]));
        }
        j = j + 1;
    }
    assert(results_view(out@) =~= page(all, offset as int, limit as int));
    out
}

/// Types whose numbers can be aggregated.
pub open spec fn aggregated(t: ColumnType) -> bool {
    is_float(t) || (crate::model::is_int(t) && !(t is Timestamp) && !(t is Date))
}

fn is_aggregated(t: ColumnType) -> (r: bool)
    ensures
        r == aggregated(t),
{
    t.is_float() || (t.is_int() && !matches!(t, ColumnType::Timestamp | ColumnType::Date))
}

} // verus!
