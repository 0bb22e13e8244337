//! The values of a dictionary column in rows whose number lies in a range.

use vstd::prelude::*;
use vstd::utf8::{decode_utf8, encode_utf8};

use crate::bytes::{bit, bitmap_len, test_bit};
use crate::codec::ColumnCodec;
use crate::column::{bytes_view, ColumnData, ColumnSeq, DictSeq, StringDictView};
use crate::double::{ceil_i64, floor_i64, le, F64};
use crate::group::{
    get_stored, get_tail, get_window, id_section, rg_bitmap_len, rg_id_section_len, stored_group,
    tail, window,
};
use crate::model::{
    is_float, is_int, rows_before, rows_before_monotonic, ColumnType, RowGroupMeta, ScanError,
    V4Footer, COL_ENCODING_COMPACT_DICTIONARY, COL_ENCODING_PLAIN,
};
use crate::numeric::{is_open, range_test, row_open, slice_view, NumTest, TestSeq};
use crate::order::{ascending_strings, is_lex_less, lex_less, sort_strings};
use crate::outside::{lossy_text, text_from_bytes, text_lossy};
use crate::storage::OnDemandStorage;
use crate::text::strings_view;
use crate::text_scan::{all_quick, are_all_quick};

verus! {

/// The numbers of a row group.
#[verifier::ext_equal]
pub enum Numbers {
    Ints(Seq<i64>),
    Reals(Seq<F64>),
}

/// The parts of a row group that hold the numbers and the dictionary.
#[verifier::ext_equal]
pub struct PairSeq {
    pub del: Option<Seq<u8>>,
    pub num_nulls: Seq<u8>,
    pub dict_nulls: Seq<u8>,
    pub dict: DictSeq,
    pub numbers: Numbers,
}

/// The numbers of a row group.
pub enum NumberVec {
    Ints(Vec<i64>),
    Reals(Vec<F64>),
}

impl View for NumberVec {
    type V = Numbers;

    open spec fn view(&self) -> Numbers {
        match *self {
            NumberVec::Ints(v) => Numbers::Ints(v@),
            NumberVec::Reals(v) => Numbers::Reals(v@),
        }
    }
}

/// The parts of a row group that hold the numbers and the dictionary.
pub struct Pair<'a> {
    pub del: Option<&'a [u8]>,
    pub num_nulls: &'a [u8],
    pub dict_nulls: &'a [u8],
    pub dict: StringDictView,
    pub numbers: NumberVec,
}

impl<'a> View for Pair<'a> {
    type V = PairSeq;

    open spec fn view(&self) -> PairSeq {
        PairSeq {
            del: slice_view(self.del),
            num_nulls: self.num_nulls@,
            dict_nulls: self.dict_nulls@,
            dict: self.dict@,
            numbers: self.numbers@,
        }
    }
}

impl Numbers {
    /// Whether there is a number for each of `n` rows.
    pub open spec fn covers(self, n: int) -> bool {
        match self {
            Numbers::Ints(v) => n <= v.len(),
            Numbers::Reals(v) => n <= v.len(),
        }
    }

    /// Whether the number in row `i` lies in `low..=high`. What is no number lies in no range.
    pub open spec fn within(self, low: F64, high: F64, i: int) -> bool {
        match self {
            Numbers::Ints(v) => ceil_i64(low) <= v[i] <= floor_i64(high),
            Numbers::Reals(v) => le(low, v[i]) && le(v[i], high),
        }
    }

    /// Whether the number in row `i` passes.
    pub open spec fn hit(self, test: TestSeq, i: int) -> bool {
        match self {
            Numbers::Ints(v) => test.accepts_int(v[i] as int),
            Numbers::Reals(v) => test.accepts_real(v[i]),
        }
    }
}

/// The parts of row group `i`; `None` where they cannot be read in place.
pub open spec fn pair_of<C: ColumnCodec>(
    c: C,
    f: V4Footer,
    file: Seq<u8>,
    num: int,
    dict: int,
    i: int,
) -> Result<Option<PairSeq>, ScanError> {
    let meta = f.row_groups@[i];
    let rows = meta.row_count as int;
    let bm = bitmap_len(rows);
    match (stored_group(meta, file), f.rcix(i, num), f.rcix(i, dict)) {
        (Ok(s), Some(no), Some(d)) => {
            let body = tail(s, 32);
            let deleted = window(body, id_section(rows, s[30]), bm);
            if meta.deletion_count > 0 && deleted is None {
                Ok(None)
            } else {
                match window(body, no, bm) {
                    None => Ok(None),
                    Some(num_nulls) => match c.decoded(
                        true,
                        tail(body, no + bm),
                        f.schema.kind(num),
                    ) {
                        None => Err(ScanError::Codec),
                        Some((col, _)) => match window(body, d, bm) {
                            None => Ok(None),
                            Some(dict_nulls) => dictionary_of(
                                c,
                                tail(body, d + bm),
                                col,
                                rows,
                                if meta.deletion_count > 0 {
                                    deleted
                                } else {
                                    None
                                },
                                num_nulls,
                                dict_nulls,
                            ),
                        },
                    },
                }
            }
        },
        _ => Ok(None),
    }
}

/// The parts of a row group whose numbers were decoded.
pub open spec fn dictionary_of<C: ColumnCodec>(
    c: C,
    bytes: Seq<u8>,
    col: ColumnSeq,
    rows: int,
    del: Option<Seq<u8>>,
    num_nulls: Seq<u8>,
    dict_nulls: Seq<u8>,
) -> Result<Option<PairSeq>, ScanError> {
    if bytes.len() == 0 || (bytes[0] != COL_ENCODING_PLAIN && bytes[0]
        != COL_ENCODING_COMPACT_DICTIONARY) {
        Ok(None)
    } else {
        match c.dictionary(bytes[0] == COL_ENCODING_COMPACT_DICTIONARY, tail(bytes, 1)) {
            None => Ok(None),
            Some(dict) => {
                let numbers = match col {
                    ColumnSeq::Int64(v) => Some(Numbers::Ints(v)),
                    ColumnSeq::Float64(v) => Some(Numbers::Reals(v)),
                    _ => None,
                };
                match numbers {
                    Some(numbers) if numbers.covers(rows) => Ok(
                        Some(PairSeq { del, num_nulls, dict_nulls, dict, numbers }),
                    ),
                    _ => Ok(None),
                }
            },
        }
    }
}

fn open_pair<'a, C: ColumnCodec>(
    c: &C,
    f: &V4Footer,
    file: &'a [u8],
    num: usize,
    dict: usize,
    i: usize,
) -> (r: Result<Option<Pair<'a>>, ScanError>)
    requires
        i < f.row_groups@.len(),
        num < f.schema.columns@.len(),
    ensures
        match r {
            Err(e) => pair_of(*c, *f, file@, num as int, dict as int, i as int) == Err::<
                Option<PairSeq>,
                ScanError,
            >(e),
            Ok(None) => pair_of(*c, *f, file@, num as int, dict as int, i as int) == Ok::<
                Option<PairSeq>,
                ScanError,
            >(None),
            Ok(Some(p)) => pair_of(*c, *f, file@, num as int, dict as int, i as int) == Ok::<
                Option<PairSeq>,
                ScanError,
            >(Some(p@)) && p.numbers@.covers(f.row_groups@[i as int].row_count as int),
        },
{
    let meta: RowGroupMeta = f.row_groups[i];
    let rows: u32 = meta.row_count;
    let bm: u64 = rg_bitmap_len(rows);
    match (get_stored(&meta, file), f.column_offset(i, num), f.column_offset(i, dict)) {
        (Ok(s), Some(no), Some(d)) => {
            let body: &'a [u8] = get_tail(s, 32);
            let deleted: Option<&'a [u8]> = get_window(body, rg_id_section_len(rows, s[30]), bm);
            if meta.deletion_count > 0 && deleted.is_none() {
                return Ok(None);
            }
            let del: Option<&'a [u8]> = if meta.deletion_count > 0 {
                deleted
            } else {
                None
            };
            let num_nulls: &'a [u8] = match get_window(body, no as u64, bm) {
                None => {
                    return Ok(None);
                },
                Some(w) => w,
            };
            let col: ColumnData = match c.read_column(
                true,
                get_tail(body, (no as u64 + bm) as usize),
                f.schema.columns[num].1,
            ) {
                None => {
                    return Err(ScanError::Codec);
                },
                Some((col, _)) => col,
            };
            let dict_nulls: &'a [u8] = match get_window(body, d as u64, bm) {
                None => {
                    return Ok(None);
                },
                Some(w) => w,
            };
            let bytes: &'a [u8] = get_tail(body, (d as u64 + bm) as usize);
            if bytes.len() == 0 || (bytes[0] != COL_ENCODING_PLAIN && bytes[0]
                != COL_ENCODING_COMPACT_DICTIONARY) {
                return Ok(None);
            }
            let view: StringDictView = match c.read_dictionary(
                bytes[0] == COL_ENCODING_COMPACT_DICTIONARY,
                get_tail(bytes, 1),
            ) {
                None => {
                    return Ok(None);
                },
                Some(v) => v,
            };
            match col {
                ColumnData::Int64(v) => if v.len() as u64 >= rows as u64 {
                    Ok(
                        Some(
                            Pair {
                                del,
                                num_nulls,
                                dict_nulls,
                                dict: view,
                                numbers: NumberVec::Ints(v),
                            },
                        ),
                    )
                } else {
                    Ok(None)
                },
                ColumnData::Float64(v) => if v.len() as u64 >= rows as u64 {
                    Ok(
                        Some(
                            Pair {
                                del,
                                num_nulls,
                                dict_nulls,
                                dict: view,
                                numbers: NumberVec::Reals(v),
                            },
                        ),
                    )
                } else {
                    Ok(None)
                },
                _ => Ok(None),
            }
        },
        _ => Ok(None),
    }
}

/// The values that a dictionary has, leaving out entries without one.
pub open spec fn present(values: Seq<Option<Seq<u8>>>) -> Seq<Seq<u8>>
    decreases values.len(),
{
    if values.len() == 0 {
        Seq::empty()
    } else {
        let before = present(values.drop_last());
        match values.last() {
            None => before,
            Some(v) => before.push(v),
        }
    }
}

/// The values of a dictionary as texts.
pub open spec fn value_texts(d: DictSeq) -> Seq<Seq<u8>> {
    Seq::new(present(d.values).len(), |j: int| encode_utf8(lossy_text(present(d.values)[j])))
}

/// The values of a dictionary as texts.
fn get_value_texts(d: &StringDictView) -> (r: Vec<Vec<u8>>)
    ensures
        strings_view(r@) == value_texts(d@),
{
    let mut out: Vec<Vec<u8>> = Vec::new();
    let ghost all = d@.values;
    let mut k: usize = 0;
    assert(all.take(0) =~= Seq::empty());
    while k < d.values.len()
        invariant
            k <= d.values@.len(),
            all == d@.values,
            out@.len() == present(all.take(k as int)).len(),
            forall|j: int|
                0 <= j < out@.len() ==> (#[trigger] out@[j])@ == encode_utf8(
                    lossy_text(present(all.take(k as int))[j]),
                ),
        decreases d.values@.len() - k,
    {
        assert(all.take(k + 1).drop_last() =~= all.take(k as int));
        assert(all[k as int] == bytes_view(d.values@[k as int]));
        if let Some(v) = &d.values[k] {
            let text: String = text_lossy(v.as_slice());
            out.push(vstd::slice::slice_to_vec(text.as_str().as_bytes()));
        }
        k = k + 1;
    }
    assert(all.take(all.len() as int) =~= all);
    assert(strings_view(out@) =~= value_texts(d@));
    out
}

/// The entry of the value list that row `i` has.
pub open spec fn entry_of(d: DictSeq, count: int, i: int) -> Option<int> {
    if i < d.indices.len() && 0 < d.indices[i] <= count {
        Some(d.indices[i] - 1)
    } else {
        None
    }
}

fn get_entry(d: &StringDictView, count: usize, i: usize) -> (r: Option<usize>)
    ensures
        match r {
            None => entry_of(d@, count as int, i as int) is None,
            Some(k) => entry_of(d@, count as int, i as int) == Some(k as int) && k < count,
        },
{
    if i < d.indices.len() && d.indices[i] > 0 && d.indices[i] as u64 <= count as u64 {
        Some((d.indices[i] - 1) as usize)
    } else {
        None
    }
}

impl PairSeq {
    /// Whether row `i` is neither deleted nor missing in one of the columns.
    pub open spec fn open(self, i: int) -> bool {
        row_open(self.del, Some(self.num_nulls), i) && !bit(self.dict_nulls, i)
    }

    /// Whether some row below `n` with a number in the range has entry `j`.
    pub open spec fn seen(self, low: F64, high: F64, count: int, n: int, j: int) -> bool {
        exists|i: int|
            0 <= i < n && #[trigger] self.open(i) && self.numbers.within(low, high, i)
                && entry_of(self.dict, count, i) == Some(j)
    }

    /// The texts that are seen, from entry `j` on.
    pub open spec fn seen_texts(self, low: F64, high: F64, n: int, k: int) -> Seq<Seq<u8>>
        decreases k,
    {
        let texts = value_texts(self.dict);
        if k <= 0 {
            Seq::empty()
        } else {
            let before = self.seen_texts(low, high, n, k - 1);
            if self.seen(low, high, texts.len() as int, n, k - 1) {
                before.push(texts[k - 1])
            } else {
                before
            }
        }
    }
}

impl<'a> Pair<'a> {
    fn is_open(&self, i: usize) -> (r: bool)
        ensures
            r == self@.open(i as int),
    {
        is_open(self.del, Some(self.num_nulls), i) && !test_bit(self.dict_nulls, i)
    }

    fn within(&self, low: F64, high: F64, low_i: i64, high_i: i64, i: usize) -> (r: bool)
        requires
            self.numbers@.covers(i + 1),
            low_i == ceil_i64(low),
            high_i == floor_i64(high),
        ensures
            r == self@.numbers.within(low, high, i as int),
    {
        match &self.numbers {
            NumberVec::Ints(v) => low_i <= v[i] && v[i] <= high_i,
            NumberVec::Reals(v) => low.le(v[i]) && v[i].le(high),
        }
    }

    /// Appends the texts that rows with a number in the range have.
    fn push_seen(&self, low: F64, high: F64, rows: u32, out: &mut Vec<Vec<u8>>)
        requires
            self.numbers@.covers(rows as int),
        ensures
            strings_view(final(out)@) == strings_view(old(out)@) + self@.seen_texts(
                low,
                high,
                rows as int,
                value_texts(self@.dict).len() as int,
            ),
    {
        let texts: Vec<Vec<u8>> = get_value_texts(&self.dict);
        let count: usize = texts.len();
        let low_i: i64 = low.ceil_i64();
        let high_i: i64 = high.floor_i64();
        let mut flags: Vec<bool> = vec![false; count];
        let mut i: usize = 0;
        while i < rows as usize
            invariant
                i <= rows,
                self.numbers@.covers(rows as int),
                low_i == ceil_i64(low),
                high_i == floor_i64(high),
                flags@.len() == count,
                forall|j: int|
                    0 <= j < count ==> #[trigger] flags@[j] == self@.seen(
                        low,
                        high,
                        count as int,
                        i as int,
                        j,
                    ),
            decreases rows - i,
        {
            let ghost before = flags@;
            if self.is_open(i) && self.within(low, high, low_i, high_i, i) {
                if let Some(k) = get_entry(&self.dict, count, i) {
                    flags.set(k, true);
                }
            }
            proof {
                assert forall|j: int| 0 <= j < count implies #[trigger] flags@[j] == self@.seen(
                    low,
                    high,
                    count as int,
                    i + 1,
                    j,
                ) by {
                    if before[j] {
                        let w = choose|w: int|
                            0 <= w < i && #[trigger] self@.open(w) && self@.numbers.within(
                                low,
                                high,
                                w,
                            ) && entry_of(self@.dict, count as int, w) == Some(j);
                        assert(self@.open(w));
                    }
                    if flags@[j] && !before[j] {
                        assert(self@.open(i as int));
                    }
                    if self@.seen(low, high, count as int, i + 1, j) {
                        let w = choose|w: int|
                            0 <= w < i + 1 && #[trigger] self@.open(w) && self@.numbers.within(
                                low,
                                high,
                                w,
                            ) && entry_of(self@.dict, count as int, w) == Some(j);
                        if w < i {
                            assert(self@.seen(low, high, count as int, i as int, j));
                        }
                    }
                }
            }
            i = i + 1;
        }
        let ghost base = strings_view(out@);
        let mut k: usize = 0;
        while k < count
            invariant
                k <= count,
                count == texts@.len(),
                flags@.len() == count,
                strings_view(texts@) == value_texts(self@.dict),
                forall|j: int|
                    0 <= j < count ==> #[trigger] flags@[j] == self@.seen(
                        low,
                        high,
                        count as int,
                        rows as int,
                        j,
                    ),
                strings_view(out@) =~= base + self@.seen_texts(low, high, rows as int, k as int),
            decreases count - k,
        {
            if flags[k] {
                let ghost was = strings_view(out@);
                let bytes: Vec<u8> = vstd::slice::slice_to_vec(texts[k].as_slice());
                assert(bytes@ == strings_view(texts@)[k as int]);
                out.push(bytes);
                assert(strings_view(out@) =~= was.push(strings_view(texts@)[k as int]));
            }
            k = k + 1;
        }
    }
}

/// The texts seen in the first `k` row groups; no answer where a row group has none.
pub open spec fn seen_in<C: ColumnCodec>(
    c: C,
    f: V4Footer,
    file: Seq<u8>,
    num: int,
    dict: int,
    low: F64,
    high: F64,
    k: int,
) -> Result<Option<Seq<Seq<u8>>>, ScanError>
    decreases k,
{
    if k <= 0 {
        Ok(Some(Seq::empty()))
    } else {
        match seen_in(c, f, file, num, dict, low, high, k - 1) {
            Ok(Some(acc)) => match pair_of(c, f, file, num, dict, k - 1) {
                Err(e) => Err(e),
                Ok(None) => Ok(None),
                Ok(Some(p)) => Ok(
                    Some(
                        acc + p.seen_texts(
                            low,
                            high,
                            f.row_groups@[k - 1].row_count as int,
                            value_texts(p.dict).len() as int,
                        ),
                    ),
                ),
            },
            other => other,
        }
    }
}

proof fn seen_in_over<C: ColumnCodec>(
    c: C,
    f: V4Footer,
    file: Seq<u8>,
    num: int,
    dict: int,
    low: F64,
    high: F64,
    j: int,
    k: int,
)
    requires
        0 <= j <= k,
        !(seen_in(c, f, file, num, dict, low, high, j) matches Ok(Some(_))),
    ensures
        seen_in(c, f, file, num, dict, low, high, k) == seen_in(
            c,
            f,
            file,
            num,
            dict,
            low,
            high,
            j,
        ),
    decreases k,
{
    if j < k {
        seen_in_over(c, f, file, num, dict, low, high, j, k - 1);
    }
}

/// The texts behind strings of bytes.
pub open spec fn decoded_texts(s: Seq<Seq<u8>>) -> Seq<Seq<char>> {
    Seq::new(s.len(), |i: int| text_of(s[i]))
}

/// The text behind bytes; an empty one where they are no text.
pub open spec fn text_of(bytes: Seq<u8>) -> Seq<char> {
    if vstd::utf8::valid_utf8(bytes) {
        decode_utf8(bytes)
    } else {
        Seq::empty()
    }
}

/// Texts as sequences of characters.
pub open spec fn chars_view(v: Seq<String>) -> Seq<Seq<char>> {
    Seq::new(v.len(), |i: int| v[i]@)
}

/// The text behind bytes; an empty one where they are no text.
pub fn text_or_empty(bytes: &[u8]) -> (r: String)
    ensures
        r@ == text_of(bytes@),
{
    match text_from_bytes(bytes) {
        None => String::new(),
        Some(t) => t.to_owned(),
    }
}

/// The texts behind strings of bytes.
fn get_texts(v: &Vec<Vec<u8>>) -> (r: Vec<String>)
    ensures
        chars_view(r@) == decoded_texts(strings_view(v@)),
{
    let mut out: Vec<String> = Vec::with_capacity(v.len());
    let mut i: usize = 0;
    while i < v.len()
        invariant
            i <= v@.len(),
            out@.len() == i,
            forall|k: int| 0 <= k < i ==> (#[trigger] out@[k])@ == text_of(strings_view(v@)[k]),
        decreases v@.len() - i,
    {
        out.push(text_or_empty(v[i].as_slice()));
        i = i + 1;
    }
    assert(chars_view(out@) =~= decoded_texts(strings_view(v@)));
    out
}

/// How often each value occurs on either side.
#[verifier::ext_equal]
pub struct Tally {
    pub left: Seq<int>,
    pub right: Seq<int>,
}

/// 1 for what holds, else 0.
pub open spec fn one_if(b: bool) -> int {
    if b {
        1
    } else {
        0
    }
}

impl PairSeq {
    /// How often each of `count` entries occurs in the first `k` rows with a number in either range.
    pub open spec fn tally(self, left: TestSeq, right: TestSeq, count: int, k: int) -> Tally
        decreases k,
    {
        if k <= 0 {
            Tally {
                left: Seq::new(count as nat, |j: int| 0int),
                right: Seq::new(count as nat, |j: int| 0int),
            }
        } else {
            let t = self.tally(left, right, count, k - 1);
            match entry_of(self.dict, count, k - 1) {
                Some(j) if self.open(k - 1) => Tally {
                    left: t.left.update(j, t.left[j] + one_if(self.numbers.hit(left, k - 1))),
                    right: t.right.update(j, t.right[j] + one_if(self.numbers.hit(right, k - 1))),
                },
                _ => t,
            }
        }
    }

    /// The values that occur on some side, with how often they do, among the first `k`.
    pub open spec fn counted(self, left: TestSeq, right: TestSeq, n: int, k: int) -> Seq<
        (Seq<u8>, int, int),
    >
        decreases k,
    {
        let texts = value_texts(self.dict);
        if k <= 0 {
            Seq::empty()
        } else {
            let before = self.counted(left, right, n, k - 1);
            let t = self.tally(left, right, texts.len() as int, n);
            if t.left[k - 1] > 0 || t.right[k - 1] > 0 {
                before.push((texts[k - 1], t.left[k - 1], t.right[k - 1]))
            } else {
                before
            }
        }
    }
}

/// The sum of some numbers.
pub open spec fn total(s: Seq<int>) -> int
    decreases s.len(),
{
    if s.len() == 0 {
        0
    } else {
        total(s.drop_last()) + s.last()
    }
}

proof fn total_update(s: Seq<int>, j: int, x: int)
    requires
        0 <= j < s.len(),
    ensures
        total(s.update(j, x)) == total(s) - s[j] + x,
    decreases s.len(),
{
    let u = s.update(j, x);
    if j == s.len() - 1 {
        assert(u.drop_last() =~= s.drop_last());
    } else {
        assert(u.drop_last() =~= s.drop_last().update(j, x));
        total_update(s.drop_last(), j, x);
    }
}

proof fn total_zero(n: nat)
    ensures
        total(Seq::new(n, |j: int| 0int)) == 0,
    decreases n,
{
    if n > 0 {
        assert(Seq::new(n, |j: int| 0int).drop_last() =~= Seq::new((n - 1) as nat, |j: int| 0int));
        total_zero((n - 1) as nat);
    }
}

/// A tally counts each row at most once on either side.
proof fn tally_bounds(p: PairSeq, left: TestSeq, right: TestSeq, count: int, k: int)
    requires
        0 <= k,
        0 <= count,
    ensures
        p.tally(left, right, count, k).left.len() == count,
        p.tally(left, right, count, k).right.len() == count,
        total(p.tally(left, right, count, k).left) <= k,
        total(p.tally(left, right, count, k).right) <= k,
        forall|j: int|
            0 <= j < count ==> 0 <= #[trigger] p.tally(left, right, count, k).left[j] <= k,
        forall|j: int|
            0 <= j < count ==> 0 <= #[trigger] p.tally(left, right, count, k).right[j] <= k,
    decreases k,
{
    if k <= 0 {
        total_zero(count as nat);
    } else {
        tally_bounds(p, left, right, count, k - 1);
        let t = p.tally(left, right, count, k - 1);
        if let Some(j) = entry_of(p.dict, count, k - 1) {
            total_update(t.left, j, t.left[j] + one_if(p.numbers.hit(left, k - 1)));
            total_update(t.right, j, t.right[j] + one_if(p.numbers.hit(right, k - 1)));
        }
    }
}

/// Entries of values with their counts.
pub open spec fn entries_view(v: Seq<(Vec<u8>, u64, u64)>) -> Seq<(Seq<u8>, int, int)> {
    Seq::new(v.len(), |i: int| (v[i].0@, v[i].1 as int, v[i].2 as int))
}

/// `s` with one more entry: added to the one with its value, or put in its place.
pub open spec fn merge_entry(s: Seq<(Seq<u8>, int, int)>, x: (Seq<u8>, int, int)) -> Seq<
    (Seq<u8>, int, int),
>
    decreases s.len(),
{
    if s.len() == 0 {
        seq![x]
    } else if s.last().0 == x.0 {
        s.drop_last().push((x.0, s.last().1 + x.1, s.last().2 + x.2))
    } else if lex_less(s.last().0, x.0) {
        s.push(x)
    } else {
        merge_entry(s.drop_last(), x).push(s.last())
    }
}

/// Entries merged one after the other.
pub open spec fn merge_all(s: Seq<(Seq<u8>, int, int)>, xs: Seq<(Seq<u8>, int, int)>) -> Seq<
    (Seq<u8>, int, int),
>
    decreases xs.len(),
{
    if xs.len() == 0 {
        s
    } else {
        merge_entry(merge_all(s, xs.drop_last()), xs.last())
    }
}

/// The counts on the left of some entries.
pub open spec fn lefts(s: Seq<(Seq<u8>, int, int)>) -> Seq<int> {
    Seq::new(s.len(), |i: int| s[i].1)
}

/// The counts on the right of some entries.
pub open spec fn rights(s: Seq<(Seq<u8>, int, int)>) -> Seq<int> {
    Seq::new(s.len(), |i: int| s[i].2)
}

/// Whether no entry counts below zero.
pub open spec fn counts_natural(s: Seq<(Seq<u8>, int, int)>) -> bool {
    forall|i: int| 0 <= i < s.len() ==> (#[trigger] s[i]).1 >= 0 && s[i].2 >= 0
}

proof fn sums_push(s: Seq<(Seq<u8>, int, int)>, x: (Seq<u8>, int, int))
    ensures
        total(lefts(s.push(x))) == total(lefts(s)) + x.1,
        total(rights(s.push(x))) == total(rights(s)) + x.2,
{
    assert(lefts(s.push(x)).drop_last() =~= lefts(s));
    assert(rights(s.push(x)).drop_last() =~= rights(s));
}

/// Merging keeps the sums.
pub proof fn merge_entry_sums(s: Seq<(Seq<u8>, int, int)>, x: (Seq<u8>, int, int))
    requires
        counts_natural(s),
        x.1 >= 0,
        x.2 >= 0,
    ensures
        counts_natural(merge_entry(s, x)),
        total(lefts(merge_entry(s, x))) == total(lefts(s)) + x.1,
        total(rights(merge_entry(s, x))) == total(rights(s)) + x.2,
    decreases s.len(),
{
    if s.len() == 0 {
        assert(seq![x] =~= s.push(x));
        sums_push(s, x);
    } else {
        let d = s.drop_last();
        assert(s =~= d.push(s.last()));
        sums_push(d, s.last());
        if s.last().0 == x.0 {
            sums_push(d, (x.0, s.last().1 + x.1, s.last().2 + x.2));
        } else if lex_less(s.last().0, x.0) {
            sums_push(s, x);
        } else {
            merge_entry_sums(d, x);
            sums_push(merge_entry(d, x), s.last());
        }
    }
}

/// No entry counts more than the sum.
proof fn part_of_total(s: Seq<(Seq<u8>, int, int)>, i: int)
    requires
        counts_natural(s),
        0 <= i < s.len(),
    ensures
        s[i].1 <= total(lefts(s)),
        s[i].2 <= total(rights(s)),
        0 <= total(lefts(s.drop_last())),
        0 <= total(rights(s.drop_last())),
    decreases s.len(),
{
    let d = s.drop_last();
    assert(s =~= d.push(s.last()));
    sums_push(d, s.last());
    assert(s[s.len() - 1].1 >= 0 && s[s.len() - 1].2 >= 0);
    if d.len() > 0 {
        assert(counts_natural(d)) by {
            assert forall|k: int| 0 <= k < d.len() implies (#[trigger] d[k]).1 >= 0 && d[k].2
                >= 0 by {
                assert(d[k] == s[k]);
            }
        }
        let k = if i < d.len() {
            i
        } else {
            0
        };
        part_of_total(d, k);
        assert(d[k] == s[k]);
        let e = d.drop_last();
        assert(d =~= e.push(d.last()));
        sums_push(e, d.last());
        assert(d[d.len() - 1].1 >= 0 && d[d.len() - 1].2 >= 0);
    } else {
        assert(lefts(d) =~= Seq::empty());
        assert(rights(d) =~= Seq::empty());
    }
}

/// Merges one entry.
fn put_entry(v: &mut Vec<(Vec<u8>, u64, u64)>, x: Vec<u8>, left: u64, right: u64)
    requires
        total(lefts(entries_view(old(v)@))) + left <= i64::MAX,
        total(rights(entries_view(old(v)@))) + right <= i64::MAX,
    ensures
        entries_view(final(v)@) == merge_entry(
            entries_view(old(v)@),
            (x@, left as int, right as int),
        ),
        total(lefts(entries_view(final(v)@))) == total(lefts(entries_view(old(v)@))) + left,
        total(rights(entries_view(final(v)@))) == total(rights(entries_view(old(v)@))) + right,
{
    let mut at: usize = v.len();
    let ghost s = entries_view(v@);
    let ghost e = (x@, left as int, right as int);
    proof {
        merge_entry_sums(s, e);
        assert(s.take(s.len() as int) =~= s);
        assert(merge_entry(s, e) + s.subrange(s.len() as int, s.len() as int) =~= merge_entry(s, e));
    }
    while at > 0
        invariant_except_break
            merge_entry(s, e) == merge_entry(s.take(at as int), e) + s.subrange(
                at as int,
                s.len() as int,
            ),
        invariant
            at <= v@.len(),
            s == entries_view(v@),
            e == (x@, left as int, right as int),
            *v == *old(v),
            total(lefts(s)) + left <= i64::MAX,
            total(rights(s)) + right <= i64::MAX,
            counts_natural(s),
            total(lefts(merge_entry(s, e))) == total(lefts(s)) + left,
            total(rights(merge_entry(s, e))) == total(rights(s)) + right,
        ensures
            merge_entry(s, e) == s.take(at as int).push(e) + s.subrange(at as int, s.len() as int),
        decreases at,
    {
        let ghost head = s.take(at as int);
        let ghost rest = s.subrange(at as int, s.len() as int);
        assert(head.last() == s[at - 1]);
        if crate::model::bytes_eq(v[at - 1].0.as_slice(), x.as_slice()) {
            proof {
                part_of_total(s, at - 1);
                assert(s[at - 1] == (v@[at - 1].0@, v@[at - 1].1 as int, v@[at - 1].2 as int));
            }
            let new_left: u64 = v[at - 1].1 + left;
            let new_right: u64 = v[at - 1].2 + right;
            v.set(at - 1, (x, new_left, new_right));
            assert(entries_view(v@) =~= head.drop_last().push(
                (e.0, head.last().1 + e.1, head.last().2 + e.2),
            ) + rest);
            return ;
        }
        if is_lex_less(v[at - 1].0.as_slice(), x.as_slice()) {
            break ;
        }
        proof {
            assert(head.drop_last() =~= s.take(at - 1));
            assert((merge_entry(head.drop_last(), e).push(head.last())) + rest =~= merge_entry(
                s.take(at - 1),
                e,
            ) + s.subrange(at - 1, s.len() as int));
        }
        at = at - 1;
        assert(at == 0 ==> merge_entry(s.take(0), e) =~= s.take(0).push(e));
    }
    assert(s.take(0).push(e) =~= merge_entry(s.take(0), e));
    v.insert(at, (x, left, right));
    assert(entries_view(v@) =~= s.take(at as int).push(e) + s.subrange(at as int, s.len() as int));
}

/// Counts as whole numbers.
pub open spec fn counts_view(v: Seq<u64>) -> Seq<int> {
    Seq::new(v.len(), |i: int| v[i] as int)
}

impl<'a> Pair<'a> {
    fn hit(&self, test: &NumTest, i: usize) -> (r: bool)
        requires
            self.numbers@.covers(i + 1),
        ensures
            r == self@.numbers.hit(test@, i as int),
    {
        match &self.numbers {
            NumberVec::Ints(v) => test.accepts_int(v[i]),
            NumberVec::Reals(v) => test.accepts_real(v[i]),
        }
    }

    /// Counts how often each entry occurs on either side.
    fn count_entries(&self, left: &NumTest, right: &NumTest, count: usize, rows: u32) -> (r: (
        Vec<u64>,
        Vec<u64>,
    ))
        requires
            self.numbers@.covers(rows as int),
        ensures
            counts_view(r.0@) == self@.tally(left@, right@, count as int, rows as int).left,
            counts_view(r.1@) == self@.tally(left@, right@, count as int, rows as int).right,
            r.0@.len() == count,
            r.1@.len() == count,
    {
        let mut lefts_out: Vec<u64> = vec![0; count];
        let mut rights_out: Vec<u64> = vec![0; count];
        let mut i: usize = 0;
        proof {
            let t = self@.tally(left@, right@, count as int, 0);
            assert(counts_view(lefts_out@) =~= t.left);
            assert(counts_view(rights_out@) =~= t.right);
        }
        while i < rows as usize
            invariant
                i <= rows,
                self.numbers@.covers(rows as int),
                lefts_out@.len() == count,
                rights_out@.len() == count,
                counts_view(lefts_out@) == self@.tally(left@, right@, count as int, i as int).left,
                counts_view(rights_out@) == self@.tally(left@, right@, count as int, i as int).right,
            decreases rows - i,
        {
            let ghost t = self@.tally(left@, right@, count as int, i as int);
            let ghost next = self@.tally(left@, right@, count as int, i + 1);
            proof {
                tally_bounds(self@, left@, right@, count as int, i as int);
            }
            if let Some(k) = get_entry(&self.dict, count, i) {
                if self.is_open(i) {
                    assert(counts_view(lefts_out@)[k as int] == t.left[k as int]);
                    assert(counts_view(rights_out@)[k as int] == t.right[k as int]);
                    if self.hit(left, i) {
                        let n: u64 = lefts_out[k] + 1;
                        lefts_out.set(k, n);
                    }
                    if self.hit(right, i) {
                        let n: u64 = rights_out[k] + 1;
                        rights_out.set(k, n);
                    }
                }
            }
            proof {
                assert(counts_view(lefts_out@) =~= next.left);
                assert(counts_view(rights_out@) =~= next.right);
            }
            i = i + 1;
        }
        (lefts_out, rights_out)
    }

    /// Merges the values of a row group with how often they occur.
    fn merge_counted(
        &self,
        left: &NumTest,
        right: &NumTest,
        rows: u32,
        out: &mut Vec<(Vec<u8>, u64, u64)>,
    )
        requires
            self.numbers@.covers(rows as int),
            total(lefts(entries_view(old(out)@))) + rows <= i64::MAX,
            total(rights(entries_view(old(out)@))) + rows <= i64::MAX,
        ensures
            entries_view(final(out)@) == merge_all(
                entries_view(old(out)@),
                self@.counted(
                    left@,
                    right@,
                    rows as int,
                    value_texts(self@.dict).len() as int,
                ),
            ),
            total(lefts(entries_view(final(out)@))) <= total(lefts(entries_view(old(out)@))) + rows,
            total(rights(entries_view(final(out)@))) <= total(rights(entries_view(old(out)@)))
                + rows,
    {
        let texts: Vec<Vec<u8>> = get_value_texts(&self.dict);
        let count: usize = texts.len();
        let (ls, rs): (Vec<u64>, Vec<u64>) = self.count_entries(left, right, count, rows);
        let ghost t = self@.tally(left@, right@, count as int, rows as int);
        let ghost start = entries_view(out@);
        proof {
            tally_bounds(self@, left@, right@, count as int, rows as int);
            assert(t.left.take(0) =~= Seq::empty());
            assert(t.right.take(0) =~= Seq::empty());
            assert(self@.counted(left@, right@, rows as int, 0) =~= Seq::empty());
        }
        let mut k: usize = 0;
        while k < count
            invariant
                k <= count,
                count == texts@.len(),
                strings_view(texts@) == value_texts(self@.dict),
                ls@.len() == count,
                rs@.len() == count,
                t == self@.tally(left@, right@, count as int, rows as int),
                counts_view(ls@) == t.left,
                counts_view(rs@) == t.right,
                start == entries_view(old(out)@),
                total(lefts(start)) + rows <= i64::MAX,
                total(rights(start)) + rows <= i64::MAX,
                total(t.left) <= rows,
                total(t.right) <= rows,
                forall|j: int| 0 <= j < count ==> 0 <= #[trigger] t.left[j],
                forall|j: int| 0 <= j < count ==> 0 <= #[trigger] t.right[j],
                entries_view(out@) == merge_all(
                    start,
                    self@.counted(left@, right@, rows as int, k as int),
                ),
                total(lefts(entries_view(out@))) <= total(lefts(start)) + total(
                    t.left.take(k as int),
                ),
                total(rights(entries_view(out@))) <= total(rights(start)) + total(
                    t.right.take(k as int),
                ),
            decreases count - k,
        {
            proof {
                assert(t.left.take(k + 1).drop_last() =~= t.left.take(k as int));
                assert(t.right.take(k + 1).drop_last() =~= t.right.take(k as int));
                prefix_total(t.left, k + 1);
                prefix_total(t.right, k + 1);
                assert(counts_view(ls@)[k as int] == t.left[k as int]);
                assert(counts_view(rs@)[k as int] == t.right[k as int]);
            }
            if ls[k] > 0 || rs[k] > 0 {
                let bytes: Vec<u8> = vstd::slice::slice_to_vec(texts[k].as_slice());
                assert(bytes@ == strings_view(texts@)[k as int]);
                proof {
                    let before = self@.counted(left@, right@, rows as int, k as int);
                    let after = self@.counted(left@, right@, rows as int, k + 1);
                    assert(after.drop_last() =~= before);
                }
                put_entry(out, bytes, ls[k], rs[k]);
            }
            k = k + 1;
        }
        proof {
            assert(t.left.take(count as int) =~= t.left);
            assert(t.right.take(count as int) =~= t.right);
        }
    }
}

/// Numbers that are not below zero add up.
proof fn prefix_total(s: Seq<int>, k: int)
    requires
        0 <= k <= s.len(),
        forall|j: int| 0 <= j < s.len() ==> 0 <= #[trigger] s[j],
    ensures
        total(s.take(k)) <= total(s),
    decreases s.len() - k,
{
    if k < s.len() {
        assert(s.take(k + 1).drop_last() =~= s.take(k));
        prefix_total(s, k + 1);
    } else {
        assert(s.take(k) =~= s);
    }
}

/// The values of the first `k` row groups with how often they occur; no answer where a row group
/// has none.
pub open spec fn counted_in<C: ColumnCodec>(
    c: C,
    f: V4Footer,
    file: Seq<u8>,
    num: int,
    dict: int,
    left: TestSeq,
    right: TestSeq,
    k: int,
) -> Result<Option<Seq<(Seq<u8>, int, int)>>, ScanError>
    decreases k,
{
    if k <= 0 {
        Ok(Some(Seq::empty()))
    } else {
        match counted_in(c, f, file, num, dict, left, right, k - 1) {
            Ok(Some(acc)) => match pair_of(c, f, file, num, dict, k - 1) {
                Err(e) => Err(e),
                Ok(None) => Ok(None),
                Ok(Some(p)) => Ok(
                    Some(
                        merge_all(
                            acc,
                            p.counted(
                                left,
                                right,
                                f.row_groups@[k - 1].row_count as int,
                                value_texts(p.dict).len() as int,
                            ),
                        ),
                    ),
                ),
            },
            other => other,
        }
    }
}

proof fn counted_in_over<C: ColumnCodec>(
    c: C,
    f: V4Footer,
    file: Seq<u8>,
    num: int,
    dict: int,
    left: TestSeq,
    right: TestSeq,
    j: int,
    k: int,
)
    requires
        0 <= j <= k,
        !(counted_in(c, f, file, num, dict, left, right, j) matches Ok(Some(_))),
    ensures
        counted_in(c, f, file, num, dict, left, right, k) == counted_in(
            c,
            f,
            file,
            num,
            dict,
            left,
            right,
            j,
        ),
    decreases k,
{
    if j < k {
        counted_in_over(c, f, file, num, dict, left, right, j, k - 1);
    }
}

/// Values with their counts.
pub open spec fn triples_view(v: Seq<(String, i64, i64)>) -> Seq<(Seq<char>, int, int)> {
    Seq::new(v.len(), |i: int| (v[i].0@, v[i].1 as int, v[i].2 as int))
}

/// Values as texts, with their counts.
pub open spec fn text_triples(s: Seq<(Seq<u8>, int, int)>) -> Seq<(Seq<char>, int, int)> {
    Seq::new(s.len(), |i: int| (text_of(s[i].0), s[i].1, s[i].2))
}

/// Values as texts, with their counts.
fn get_triples(v: &Vec<(Vec<u8>, u64, u64)>) -> (r: Vec<(String, i64, i64)>)
    requires
        total(lefts(entries_view(v@))) <= i64::MAX,
        total(rights(entries_view(v@))) <= i64::MAX,
    ensures
        triples_view(r@) == text_triples(entries_view(v@)),
{
    let mut out: Vec<(String, i64, i64)> = Vec::with_capacity(v.len());
    let mut i: usize = 0;
    let ghost s = entries_view(v@);
    while i < v.len()
        invariant
            i <= v@.len(),
            s == entries_view(v@),
            total(lefts(s)) <= i64::MAX,
            total(rights(s)) <= i64::MAX,
            triples_view(out@) =~= text_triples(s).take(i as int),
        decreases v@.len() - i,
    {
        proof {
            part_of_total(s, i as int);
            assert(s[i as int] == (v@[i as int].0@, v@[i as int].1 as int, v@[i as int].2 as int));
        }
        let ghost before = triples_view(out@);
        let text: String = text_or_empty(v[i].0.as_slice());
        let left: i64 = v[i].1 as i64;
        let right: i64 = v[i].2 as i64;
        let ghost triple = (text@, left as int, right as int);
        out.push((text, left, right));
        proof {
            assert(triples_view(out@) =~= before.push(triple));
            assert(text_triples(s)[i as int] == triple);
            assert(text_triples(s).take(i + 1) =~= text_triples(s).take(i as int).push(triple));
        }
        i = i + 1;
    }
    assert(text_triples(s).take(s.len() as int) =~= text_triples(s));
    out
}

impl<C: ColumnCodec> OnDemandStorage<C> {
    /// The columns that a scan of dictionary values by numbers looks at.
    pub open spec fn number_and_dict(self, num_col: Seq<char>, dict_col: Seq<char>) -> Option<
        (V4Footer, usize, usize),
    > {
        match self.footer {
            None => None,
            Some(f) => match (f.schema.index_of(num_col), f.schema.index_of(dict_col)) {
                (Some(n), Some(d)) => {
                    let kind = f.schema.kind(n as int);
                    if (is_int(kind) || is_float(kind)) && f.schema.kind(d as int) is StringDict {
                        Some((f, n, d))
                    } else {
                        None
                    }
                },
                _ => None,
            },
        }
    }

    fn get_number_and_dict(&self, num_col: &str, dict_col: &str) -> (r: Option<(usize, usize)>)
        ensures
            match r {
                None => self.number_and_dict(num_col@, dict_col@) is None,
                Some((n, d)) => self.footer matches Some(f) && self.number_and_dict(
                    num_col@,
                    dict_col@,
                ) == Some((f, n, d)) && n < f.schema.columns@.len() && d < f.schema.columns@.len(),
            },
    {
        match &self.footer {
            None => None,
            Some(f) => match (f.schema.get_index(num_col), f.schema.get_index(dict_col)) {
                (Some(n), Some(d)) => {
                    let kind: ColumnType = f.schema.columns[n].1;
                    if (kind.is_int() || kind.is_float()) && matches!(
                        f.schema.columns[d].1,
                        ColumnType::StringDict
                    ) {
                        Some((n, d))
                    } else {
                        None
                    }
                },
                _ => None,
            },
        }
    }

    /// The values of a dictionary column in rows whose number is not outside of a range, in
    /// ascending order; no answer where a row group cannot be scanned in place.
    pub open spec fn distinct_values(
        self,
        num_col: Seq<char>,
        low: F64,
        high: F64,
        dict_col: Seq<char>,
    ) -> Result<Option<Seq<Seq<char>>>, ScanError> {
        match self.number_and_dict(num_col, dict_col) {
            None => Ok(None),
            Some((f, n, d)) => match self.file {
                None => Err(ScanError::NotOpen),
                Some(file) => if !all_quick(f, file@, n as int) || !all_quick(f, file@, d as int) {
                    Ok(None)
                } else {
                    match seen_in(
                        self.codec,
                        f,
                        file@,
                        n as int,
                        d as int,
                        low,
                        high,
                        f.row_groups@.len() as int,
                    ) {
                        Err(e) => Err(e),
                        Ok(None) => Ok(None),
                        Ok(Some(all)) => Ok(Some(decoded_texts(ascending_strings(all)))),
                    }
                },
            },
        }
    }

    /// Finds the values of a dictionary column in rows whose number is not outside of a range.
    pub fn scan_distinct_dict_values_in_range(
        &self,
        num_col: &str,
        lo: F64,
        hi: F64,
        dict_col: &str,
    ) -> (r: Result<Option<Vec<String>>, ScanError>)
        ensures
            match r {
                Err(e) => self.distinct_values(num_col@, lo, hi, dict_col@) == Err::<
                    Option<Seq<Seq<char>>>,
                    ScanError,
                >(e),
                Ok(None) => self.distinct_values(num_col@, lo, hi, dict_col@) == Ok::<
                    Option<Seq<Seq<char>>>,
                    ScanError,
                >(None),
                Ok(Some(v)) => self.distinct_values(num_col@, lo, hi, dict_col@) == Ok::<
                    Option<Seq<Seq<char>>>,
                    ScanError,
                >(Some(chars_view(v@))),
            },
    {
        let (n, d): (usize, usize) = match self.get_number_and_dict(num_col, dict_col) {
            None => {
                return Ok(None);
            },
            Some(p) => p,
        };
        let (f, file): (&V4Footer, &[u8]) = match (&self.footer, &self.file) {
            (Some(f), Some(v)) => (f, v.as_slice()),
            _ => {
                return Err(ScanError::NotOpen);
            },
        };
        if !are_all_quick(f, file, n) || !are_all_quick(f, file, d) {
            return Ok(None);
        }
        let mut all: Vec<Vec<u8>> = Vec::new();
        let mut i: usize = 0;
        let ghost count = f.row_groups@.len() as int;
        assert(strings_view(all@) =~= Seq::empty());
        while i < f.row_groups.len()
            invariant
                i <= f.row_groups@.len(),
                count == f.row_groups@.len(),
                n < f.schema.columns@.len(),
                self.footer == Some(*f),
                self.file matches Some(v) && v@ == file@,
                self.number_and_dict(num_col@, dict_col@) == Some((*f, n, d)),
                all_quick(*f, file@, n as int),
                all_quick(*f, file@, d as int),
                seen_in(self.codec, *f, file@, n as int, d as int, lo, hi, i as int) == Ok::<
                    Option<Seq<Seq<u8>>>,
                    ScanError,
                >(Some(strings_view(all@))),
            decreases f.row_groups@.len() - i,
        {
            match open_pair(&self.codec, f, file, n, d, i) {
                Err(e) => {
                    proof {
                        seen_in_over(
                            self.codec,
                            *f,
                            file@,
                            n as int,
                            d as int,
                            lo,
                            hi,
                            i + 1,
                            count,
                        );
                    }
                    return Err(e);
                },
                Ok(None) => {
                    proof {
                        seen_in_over(
                            self.codec,
                            *f,
                            file@,
                            n as int,
                            d as int,
                            lo,
                            hi,
                            i + 1,
                            count,
                        );
                    }
                    return Ok(None);
                },
                Ok(Some(p)) => p.push_seen(lo, hi, f.row_groups[i].row_count, &mut all),
            }
            i = i + 1;
        }
        let sorted: Vec<Vec<u8>> = sort_strings(&all);
        Ok(Some(get_texts(&sorted)))
    }

    /// The values of a dictionary column with how many rows have them whose number lies in a first
    /// and in a second range, in ascending order.
    pub open spec fn dict_value_counts(
        self,
        num_col: Seq<char>,
        left: TestSeq,
        right: TestSeq,
        dict_col: Seq<char>,
    ) -> Result<Option<Seq<(Seq<char>, int, int)>>, ScanError> {
        match self.number_and_dict(num_col, dict_col) {
            None => Ok(None),
            Some((f, n, d)) => match self.file {
                None => Err(ScanError::NotOpen),
                Some(file) => if !all_quick(f, file@, n as int) || !all_quick(f, file@, d as int) {
                    Ok(None)
                } else {
                    match counted_in(
                        self.codec,
                        f,
                        file@,
                        n as int,
                        d as int,
                        left,
                        right,
                        f.row_groups@.len() as int,
                    ) {
                        Err(e) => Err(e),
                        Ok(None) => Ok(None),
                        Ok(Some(all)) => Ok(Some(text_triples(all))),
                    }
                },
            },
        }
    }

    /// Counts the rows of each value of a dictionary column whose number lies in two ranges.
    pub fn count_dict_values_two_ranges(
        &self,
        num_col: &str,
        lo1: F64,
        hi1: F64,
        lo2: F64,
        hi2: F64,
        dict_col: &str,
    ) -> (r: Result<Option<Vec<(String, i64, i64)>>, ScanError>)
        requires
            self.wf(),
        ensures
            match r {
                Err(e) => self.dict_value_counts(
                    num_col@,
                    range_test(lo1, hi1),
                    range_test(lo2, hi2),
                    dict_col@,
                ) == Err::<Option<Seq<(Seq<char>, int, int)>>, ScanError>(e),
                Ok(None) => self.dict_value_counts(
                    num_col@,
                    range_test(lo1, hi1),
                    range_test(lo2, hi2),
                    dict_col@,
                ) == Ok::<Option<Seq<(Seq<char>, int, int)>>, ScanError>(None),
                Ok(Some(v)) => self.dict_value_counts(
                    num_col@,
                    range_test(lo1, hi1),
                    range_test(lo2, hi2),
                    dict_col@,
                ) == Ok::<Option<Seq<(Seq<char>, int, int)>>, ScanError>(Some(triples_view(v@))),
            },
    {
        let (n, d): (usize, usize) = match self.get_number_and_dict(num_col, dict_col) {
            None => {
                return Ok(None);
            },
            Some(p) => p,
        };
        let (f, file): (&V4Footer, &[u8]) = match (&self.footer, &self.file) {
            (Some(f), Some(v)) => (f, v.as_slice()),
            _ => {
                return Err(ScanError::NotOpen);
            },
        };
        if !are_all_quick(f, file, n) || !are_all_quick(f, file, d) {
            return Ok(None);
        }
        let left: NumTest = NumTest::range(lo1, hi1);
        let right: NumTest = NumTest::range(lo2, hi2);
        let mut all: Vec<(Vec<u8>, u64, u64)> = Vec::new();
        let mut i: usize = 0;
        let ghost count = f.row_groups@.len() as int;
        proof {
            assert(entries_view(all@) =~= Seq::empty());
            assert(lefts(entries_view(all@)) =~= Seq::empty());
            assert(rights(entries_view(all@)) =~= Seq::empty());
        }
        while i < f.row_groups.len()
            invariant
                i <= f.row_groups@.len(),
                count == f.row_groups@.len(),
                f.wf(),
                n < f.schema.columns@.len(),
                self.footer == Some(*f),
                self.file matches Some(v) && v@ == file@,
                self.number_and_dict(num_col@, dict_col@) == Some((*f, n, d)),
                all_quick(*f, file@, n as int),
                all_quick(*f, file@, d as int),
                left@ == range_test(lo1, hi1),
                right@ == range_test(lo2, hi2),
                counted_in(
                    self.codec,
                    *f,
                    file@,
                    n as int,
                    d as int,
                    left@,
                    right@,
                    i as int,
                ) == Ok::<Option<Seq<(Seq<u8>, int, int)>>, ScanError>(Some(entries_view(all@))),
                total(lefts(entries_view(all@))) <= rows_before(f.row_groups@, i as int),
                total(rights(entries_view(all@))) <= rows_before(f.row_groups@, i as int),
            decreases f.row_groups@.len() - i,
        {
            proof {
                rows_before_monotonic(f.row_groups@, i + 1, count);
            }
            match open_pair(&self.codec, f, file, n, d, i) {
                Err(e) => {
                    proof {
                        counted_in_over(
                            self.codec,
                            *f,
                            file@,
                            n as int,
                            d as int,
                            left@,
                            right@,
                            i + 1,
                            count,
                        );
                    }
                    return Err(e);
                },
                Ok(None) => {
                    proof {
                        counted_in_over(
                            self.codec,
                            *f,
                            file@,
                            n as int,
                            d as int,
                            left@,
                            right@,
                            i + 1,
                            count,
                        );
                    }
                    return Ok(None);
                },
                Ok(Some(p)) => p.merge_counted(
                    &left,
                    &right,
                    f.row_groups[i].row_count,
                    &mut all,
                ),
            }
            i = i + 1;
        }
        Ok(Some(get_triples(&all)))
    }
}

} // verus!
