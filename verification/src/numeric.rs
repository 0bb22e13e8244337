//! Scans of numeric columns.

use ahash::AHashSet;
use vstd::prelude::*;

use crate::bytes::{
    bit, bitmap_len, bitpack_value_at, i64_le, packed_value, read_i64, read_u64, test_bit, u64_le,
};
use crate::codec::ColumnCodec;
use crate::column::{ColumnData, ColumnSeq};
use crate::double::{bits_of_i64, ceil_i64, floor_i64, le, lt, trunc_i64, F64};
use crate::group::{
    get_stored, get_tail, get_window, group_of, id_section, open_group, rg_bitmap_len,
    rg_id_section_len, stored_group, tail, walk, walk_columns, window, Group, GroupSeq,
};
use crate::model::{
    is_float, is_int, rows_before, rows_before_monotonic, ColumnType, OnDemandSchema, RowGroupMeta,
    ScanError, V4Footer, ZoneMap, COL_ENCODING_BITPACK, COL_ENCODING_PLAIN, RG_COMPRESS_NONE,
};
use crate::outside::{number_set_contains, number_set_insert, number_set_new, numbers_of};
use crate::select::{select, select_rows};
use crate::storage::{max_rows, rows_view, OnDemandStorage};

verus! {

/// Numbers to compare with: linear search in a few, a hash set for many.
pub struct ValueSet {
    few: Vec<i64>,
    many: Option<AHashSet<i64>>,
}

impl View for ValueSet {
    type V = Set<i64>;

    closed spec fn view(&self) -> Set<i64> {
        match self.many {
            None => self.few@.to_set(),
            Some(s) => numbers_of(s),
        }
    }
}

/// The smallest of some numbers.
pub open spec fn least(values: Seq<i64>) -> int
    decreases values.len(),
{
    if values.len() <= 1 {
        values[0] as int
    } else {
        let m = least(values.drop_last());
        if values.last() < m {
            values.last() as int
        } else {
            m
        }
    }
}

/// The largest of some numbers.
pub open spec fn greatest(values: Seq<i64>) -> int
    decreases values.len(),
{
    if values.len() <= 1 {
        values[0] as int
    } else {
        let m = greatest(values.drop_last());
        if values.last() > m {
            values.last() as int
        } else {
            m
        }
    }
}

impl ValueSet {
    /// Collects numbers.
    pub fn new(values: &[i64]) -> (r: ValueSet)
        ensures
            r@ == values@.to_set(),
    {
        if values.len() <= 16 {
            let few: Vec<i64> = vstd::slice::slice_to_vec(values);
            return ValueSet { few, many: None };
        }
        let mut set: AHashSet<i64> = number_set_new();
        let mut i: usize = 0;
        assert(values@.take(0).to_set() =~= Set::<i64>::empty());
        while i < values.len()
            invariant
                i <= values.len(),
                numbers_of(set) == values@.take(i as int).to_set(),
            decreases values.len() - i,
        {
            number_set_insert(&mut set, values[i]);
            proof {
                let before = values@.take(i as int);
                let after = values@.take(i + 1);
                assert(after =~= before.push(values@[i as int]));
                assert(after.to_set() =~= before.to_set().insert(values@[i as int])) by {
                    assert forall|x: i64| after.contains(x) implies before.contains(x) || x
                        == values@[i as int] by {}
                    assert forall|x: i64| before.contains(x) implies after.contains(x) by {
                        let k = choose|k: int| 0 <= k < before.len() && before[k] == x;
                        assert(after[k] == x);
                    }
                    assert(after[i as int] == values@[i as int]);
                }
            }
            i = i + 1;
        }
        assert(values@.take(values@.len() as int) =~= values@);
        ValueSet { few: Vec::new(), many: Some(set) }
    }

    /// Whether `v` is one of the numbers.
    pub fn contains(&self, v: i64) -> (r: bool)
        ensures
            r == self@.contains(v),
    {
        match &self.many {
            Some(s) => number_set_contains(s, v),
            None => {
                let mut i: usize = 0;
                while i < self.few.len()
                    invariant
                        i <= self.few@.len(),
                        self.many is None,
                        forall|k: int| 0 <= k < i ==> self.few@[k] != v,
                    decreases self.few@.len() - i,
                {
                    if self.few[i] == v {
                        assert(self.few@.contains(v));
                        return true;
                    }
                    i = i + 1;
                }
                false
            },
        }
    }
}

/// The smallest and the largest of some numbers.
fn extremes(values: &[i64]) -> (r: (i64, i64))
    requires
        values.len() > 0,
    ensures
        r.0 == least(values@),
        r.1 == greatest(values@),
{
    let mut low: i64 = values[0];
    let mut high: i64 = values[0];
    let mut i: usize = 1;
    while i < values.len()
        invariant
            1 <= i <= values.len(),
            low == least(values@.take(i as int)),
            high == greatest(values@.take(i as int)),
        decreases values.len() - i,
    {
        let v: i64 = values[i];
        assert(values@.take(i + 1).drop_last() =~= values@.take(i as int));
        if v < low {
            low = v;
        }
        if v > high {
            high = v;
        }
        i = i + 1;
    }
    assert(values@.take(values@.len() as int) =~= values@);
    (low, high)
}

/// Which numbers a scan looks for: those between two bounds, or among them those of a set. The
/// bounds are given for doubles and for integers.
pub struct NumTest {
    pub low: F64,
    pub high: F64,
    pub low_i: i64,
    pub high_i: i64,
    pub among: Option<ValueSet>,
}

/// Which numbers a scan looks for, with the set as a set.
pub struct TestSeq {
    pub low: F64,
    pub high: F64,
    pub low_i: int,
    pub high_i: int,
    pub among: Option<Set<i64>>,
}

impl View for NumTest {
    type V = TestSeq;

    open spec fn view(&self) -> TestSeq {
        TestSeq {
            low: self.low,
            high: self.high,
            low_i: self.low_i as int,
            high_i: self.high_i as int,
            among: match self.among {
                None => None,
                Some(s) => Some(s@),
            },
        }
    }
}

/// The test for `low <= v <= high`; integers compare with the bounds rounded inwards.
pub open spec fn range_test(low: F64, high: F64) -> TestSeq {
    TestSeq { low, high, low_i: ceil_i64(low), high_i: floor_i64(high), among: None }
}

/// The test for being one of some numbers; a double counts as the integer that it is cut to.
pub open spec fn in_test(values: Seq<i64>) -> TestSeq {
    TestSeq {
        low: F64 { bits: bits_of_i64(least(values)) as u64 },
        high: F64 { bits: bits_of_i64(greatest(values)) as u64 },
        low_i: least(values),
        high_i: greatest(values),
        among: Some(values.to_set()),
    }
}

impl TestSeq {
    /// Whether an integer passes.
    pub open spec fn accepts_int(self, v: int) -> bool {
        match self.among {
            None => self.low_i <= v <= self.high_i,
            Some(s) => s.contains(v as i64),
        }
    }

    /// Whether a double passes.
    pub open spec fn accepts_real(self, v: F64) -> bool {
        match self.among {
            None => le(self.low, v) && le(v, self.high),
            Some(s) => s.contains(trunc_i64(v) as i64),
        }
    }

    /// Whether a zone map rules out every row.
    pub open spec fn misses(self, z: Option<ZoneMap>) -> bool {
        match z {
            None => false,
            Some(m) => if m.is_float {
                !m.overlaps_float(self.low, self.high)
            } else {
                !m.overlaps_int(self.low_i, self.high_i)
            },
        }
    }
}

impl NumTest {
    /// The test for `low <= v <= high`.
    pub fn range(low: F64, high: F64) -> (r: NumTest)
        ensures
            r@ == range_test(low, high),
    {
        NumTest { low, high, low_i: low.ceil_i64(), high_i: high.floor_i64(), among: None }
    }

    /// The test for being one of some numbers.
    pub fn one_of(values: &[i64]) -> (r: NumTest)
        requires
            values.len() > 0,
        ensures
            r@ == in_test(values@),
    {
        let (low_i, high_i): (i64, i64) = extremes(values);
        NumTest {
            low: F64::from_i64(low_i),
            high: F64::from_i64(high_i),
            low_i,
            high_i,
            among: Some(ValueSet::new(values)),
        }
    }

    /// Tests an integer.
    pub fn accepts_int(&self, v: i64) -> (r: bool)
        ensures
            r == self@.accepts_int(v as int),
    {
        match &self.among {
            None => self.low_i <= v && v <= self.high_i,
            Some(s) => s.contains(v),
        }
    }

    /// Tests a double.
    pub fn accepts_real(&self, v: F64) -> (r: bool)
        ensures
            r == self@.accepts_real(v),
    {
        match &self.among {
            None => self.low.le(v) && v.le(self.high),
            Some(s) => s.contains(v.trunc_i64()),
        }
    }

    /// Whether a zone map rules out every row.
    pub fn misses(&self, z: Option<ZoneMap>) -> (r: bool)
        ensures
            r == self@.misses(z),
    {
        match z {
            None => false,
            Some(m) => if m.is_float {
                !m.may_overlap_float_range(self.low, self.high)
            } else {
                !m.may_overlap_int_range(self.low_i, self.high_i)
            },
        }
    }
}

/// Where the numbers of a row group come from.
pub enum NumSource<'a> {
    /// Signed double words.
    PlainInt(&'a [u8]),
    /// Doubles.
    PlainReal(&'a [u8]),
    /// Packed integers.
    Packed { packed: &'a [u8], width: usize, min: i64 },
    /// Bits.
    Bits(&'a [u8]),
    /// Decoded integers.
    Ints(&'a Vec<i64>),
    /// Decoded doubles.
    Reals(&'a Vec<F64>),
}

/// Where the numbers of a row group come from, as sequences.
pub enum NumSeq {
    PlainInt(Seq<u8>),
    PlainReal(Seq<u8>),
    Packed { packed: Seq<u8>, width: int, min: int },
    Bits(Seq<u8>),
    Ints(Seq<i64>),
    Reals(Seq<F64>),
}

impl<'a> View for NumSource<'a> {
    type V = NumSeq;

    open spec fn view(&self) -> NumSeq {
        match *self {
            NumSource::PlainInt(s) => NumSeq::PlainInt(s@),
            NumSource::PlainReal(s) => NumSeq::PlainReal(s@),
            NumSource::Packed { packed, width, min } => NumSeq::Packed {
                packed: packed@,
                width: width as int,
                min: min as int,
            },
            NumSource::Bits(s) => NumSeq::Bits(s@),
            NumSource::Ints(v) => NumSeq::Ints(v@),
            NumSource::Reals(v) => NumSeq::Reals(v@),
        }
    }
}

/// The double at byte `o`.
pub open spec fn f64_le(s: Seq<u8>, o: int) -> F64 {
    F64 { bits: u64_le(s, o) as u64 }
}

/// Reads the double at byte `o`.
pub fn read_f64(s: &[u8], o: usize) -> (r: F64)
    requires
        o + 8 <= s.len(),
    ensures
        r == f64_le(s@, o as int),
{
    F64::from_bits(read_u64(s, o))
}

/// The first `n` doubles of `bytes`.
pub fn bytes_as_f64_slice(bytes: &[u8], n: usize) -> (r: Vec<F64>)
    requires
        n * 8 <= bytes.len(),
    ensures
        r@ == Seq::new(n as nat, |i: int| f64_le(bytes@, i * 8)),
{
    let mut out: Vec<F64> = Vec::with_capacity(n);
    let mut i: usize = 0;
    while i < n
        invariant
            i <= n,
            n * 8 <= bytes.len(),
            out@ == Seq::new(i as nat, |k: int| f64_le(bytes@, k * 8)),
        decreases n - i,
    {
        out.push(read_f64(bytes, i * 8));
        i = i + 1;
    }
    out
}

impl NumSeq {
    /// Whether the source reaches to row `n`.
    pub open spec fn covers(self, n: int) -> bool {
        match self {
            NumSeq::PlainInt(s) => n * 8 <= s.len(),
            NumSeq::PlainReal(s) => n * 8 <= s.len(),
            NumSeq::Packed { .. } => true,
            NumSeq::Bits(_) => true,
            NumSeq::Ints(v) => n <= v.len(),
            NumSeq::Reals(v) => n <= v.len(),
        }
    }

    /// Whether the number in row `i` passes the test.
    pub open spec fn hit(self, test: TestSeq, i: int) -> bool {
        match self {
            NumSeq::PlainInt(s) => test.accepts_int(i64_le(s, i * 8)),
            NumSeq::PlainReal(s) => test.accepts_real(f64_le(s, i * 8)),
            NumSeq::Packed { packed, width, min } => match packed_value(packed, width, min, i) {
                None => false,
                Some(v) => test.accepts_int(v as int),
            },
            NumSeq::Bits(s) => test.accepts_int(
                if bit(s, i) {
                    1
                } else {
                    0
                },
            ),
            NumSeq::Ints(v) => test.accepts_int(v[i] as int),
            NumSeq::Reals(v) => test.accepts_real(v[i]),
        }
    }
}

/// Whether a row is neither deleted nor missing.
pub open spec fn row_open(del: Option<Seq<u8>>, nulls: Option<Seq<u8>>, i: int) -> bool {
    !(del matches Some(d) && bit(d, i)) && !(nulls matches Some(d) && bit(d, i))
}

/// The bytes behind an optional slice.
pub open spec fn slice_view(s: Option<&[u8]>) -> Option<Seq<u8>> {
    match s {
        None => None,
        Some(b) => Some(b@),
    }
}

/// Tests whether a row is neither deleted nor missing.
pub fn is_open(del: Option<&[u8]>, nulls: Option<&[u8]>, i: usize) -> (r: bool)
    ensures
        r == row_open(slice_view(del), slice_view(nulls), i as int),
{
    let gone: bool = match del {
        None => false,
        Some(d) => test_bit(d, i),
    };
    let missing: bool = match nulls {
        None => false,
        Some(d) => test_bit(d, i),
    };
    !gone && !missing
}

/// The rows whose number passes the test.
pub open spec fn num_rows(
    src: NumSeq,
    test: TestSeq,
    del: Option<Seq<u8>>,
    nulls: Option<Seq<u8>>,
) -> spec_fn(int) -> bool {
    |i: int| row_open(del, nulls, i) && src.hit(test, i)
}

impl<'a> NumSource<'a> {
    /// Whether the source reaches to row `n`.
    pub fn reaches(&self, n: usize) -> (r: bool)
        ensures
            r == self@.covers(n as int),
    {
        match self {
            NumSource::PlainInt(s) => n <= s.len() / 8,
            NumSource::PlainReal(s) => n <= s.len() / 8,
            NumSource::Packed { .. } => true,
            NumSource::Bits(_) => true,
            NumSource::Ints(v) => n <= v.len(),
            NumSource::Reals(v) => n <= v.len(),
        }
    }

    pub(crate) fn hit(&self, test: &NumTest, i: usize) -> (r: bool)
        requires
            self@.covers(i + 1),
        ensures
            r == self@.hit(test@, i as int),
    {
        match self {
            NumSource::PlainInt(s) => {
                assert((i + 1) * 8 <= s.len());
                test.accepts_int(read_i64(s, i * 8))
            },
            NumSource::PlainReal(s) => {
                assert((i + 1) * 8 <= s.len());
                test.accepts_real(read_f64(s, i * 8))
            },
            NumSource::Packed { packed, width, min } => match bitpack_value_at(
                packed,
                *width,
                *min,
                i,
            ) {
                None => false,
                Some(v) => test.accepts_int(v),
            },
            NumSource::Bits(s) => test.accepts_int(
                if test_bit(s, i) {
                    1
                } else {
                    0
                },
            ),
            NumSource::Ints(v) => test.accepts_int(v[i]),
            NumSource::Reals(v) => test.accepts_real(v[i]),
        }
    }

    /// Appends the rows below `n` whose number passes the test.
    pub fn select(
        &self,
        test: &NumTest,
        del: Option<&[u8]>,
        nulls: Option<&[u8]>,
        n: usize,
        base: usize,
        acc: &mut Vec<usize>,
        max: usize,
    )
        requires
            self@.covers(n as int),
            base + n <= usize::MAX,
        ensures
            final(acc)@ == select(
                num_rows(self@, test@, slice_view(del), slice_view(nulls)),
                n as int,
                base as int,
                old(acc)@,
                max as int,
            ),
    {
        let ghost hit = num_rows(self@, test@, slice_view(del), slice_view(nulls));
        let f = |i: usize| -> (r: bool)
            requires
                i < n,
            ensures
                r == hit(i as int),
            { is_open(del, nulls, i) && self.hit(test, i) };
        select_rows(f, Ghost(hit), n, base, acc, max);
    }
}

/// What a scan of a numeric column looks for.
pub struct NumQuery {
    /// The column.
    pub col: usize,
    /// Whether the column holds bits.
    pub bits: bool,
    /// Whether the column holds integers.
    pub ints: bool,
    /// Whether packed integers are read in place.
    pub packed: bool,
    /// Which numbers are looked for.
    pub test: NumTest,
    /// How many rows are wanted.
    pub max: usize,
}

/// What a scan of a numeric column looks for, with the test as a set.
pub struct QuerySeq {
    pub col: int,
    pub bits: bool,
    pub ints: bool,
    pub packed: bool,
    pub test: TestSeq,
    pub max: int,
}

impl View for NumQuery {
    type V = QuerySeq;

    open spec fn view(&self) -> QuerySeq {
        QuerySeq {
            col: self.col as int,
            bits: self.bits,
            ints: self.ints,
            packed: self.packed,
            test: self.test@,
            max: self.max as int,
        }
    }
}

/// The smaller of two numbers.
pub open spec fn min2(a: int, b: int) -> int {
    if a <= b {
        a
    } else {
        b
    }
}

/// The smaller of two numbers.
pub fn min_u64(a: u64, b: u64) -> (r: u64)
    ensures
        r == min2(a as int, b as int),
{
    if a <= b {
        a
    } else {
        b
    }
}

/// The numbers of a plain column and how many of them stand for rows: a count, then the words.
pub open spec fn plain_numbers(ints: bool, rows: int, payload: Seq<u8>) -> (NumSeq, int) {
    let words = tail(payload, 8);
    let n = min2(min2(u64_le(payload, 0) as int, rows), words.len() as int / 8);
    if ints {
        (NumSeq::PlainInt(words), n)
    } else {
        (NumSeq::PlainReal(words), n)
    }
}

/// The truth values of a plain column and how many of them stand for rows: a count, then one bit for
/// each value.
pub open spec fn plain_truths(rows: int, payload: Seq<u8>) -> (NumSeq, int) {
    let packed = tail(payload, 8);
    let n = min2(min2(u64_le(payload, 0) as int, rows), 8 * packed.len() as int);
    (NumSeq::Bits(packed), n)
}

/// The numbers of a bit-packed column: a count, the width, the smallest number, then the fields.
pub open spec fn packed_numbers(rows: int, payload: Seq<u8>) -> Option<(NumSeq, int)> {
    if payload.len() < 17 || payload[8] >= 64 {
        None
    } else {
        let count = u64_le(payload, 0) as int;
        let width = payload[8] as int;
        match window(payload, 17, bitmap_len(count * width)) {
            None => None,
            Some(packed) => Some(
                (NumSeq::Packed { packed, width, min: i64_le(payload, 9) }, min2(count, rows)),
            ),
        }
    }
}

/// The bytes before the payload of a column: its encoding, from version 1 on.
pub open spec fn tag_len(version: u8) -> int {
    if version >= 1 {
        1
    } else {
        0
    }
}

/// The encoding of a column.
pub open spec fn encoding_of(version: u8, col: Seq<u8>) -> u8 {
    if version >= 1 && col.len() > 0 {
        col[0]
    } else {
        COL_ENCODING_PLAIN
    }
}

/// The bytes before the payload of a column.
pub fn get_tag_len(version: u8) -> (r: usize)
    ensures
        r == tag_len(version),
{
    if version >= 1 {
        1
    } else {
        0
    }
}

/// The encoding of a column.
pub fn get_encoding(version: u8, col: &[u8]) -> (r: u8)
    ensures
        r == encoding_of(version, col@),
{
    if version >= 1 && col.len() > 0 {
        col[0]
    } else {
        COL_ENCODING_PLAIN
    }
}

/// The numbers of a plain column.
pub fn get_plain_numbers<'a>(ints: bool, rows: u32, payload: &'a [u8]) -> (r: (
    NumSource<'a>,
    usize,
))
    requires
        payload.len() >= 8,
    ensures
        (r.0@, r.1 as int) == plain_numbers(ints, rows as int, payload@),
        r.0@.covers(r.1 as int),
        r.1 <= rows,
{
    let words: &'a [u8] = get_tail(payload, 8);
    let n: usize = min_u64(
        min_u64(read_u64(payload, 0), rows as u64),
        (words.len() / 8) as u64,
    ) as usize;
    if ints {
        (NumSource::PlainInt(words), n)
    } else {
        (NumSource::PlainReal(words), n)
    }
}

/// The truth values of a plain column.
pub fn get_plain_truths<'a>(rows: u32, payload: &'a [u8]) -> (r: (NumSource<'a>, usize))
    requires
        payload.len() >= 8,
    ensures
        (r.0@, r.1 as int) == plain_truths(rows as int, payload@),
        r.0@.covers(r.1 as int),
        r.1 <= rows,
{
    let packed: &'a [u8] = get_tail(payload, 8);
    let n: usize = min_u64(
        min_u64(read_u64(payload, 0), rows as u64),
        if packed.len() as u64 <= 0xffff_ffff {
            8 * packed.len() as u64
        } else {
            rows as u64
        },
    ) as usize;
    (NumSource::Bits(packed), n)
}

/// The numbers of a bit-packed column.
pub fn get_packed_numbers<'a>(rows: u32, payload: &'a [u8]) -> (r: Option<(NumSource<'a>, usize)>)
    ensures
        match r {
            None => packed_numbers(rows as int, payload@) is None,
            Some((src, n)) => packed_numbers(rows as int, payload@) == Some((src@, n as int))
                && src@.covers(n as int) && n <= rows,
        },
{
    if payload.len() < 17 || payload[8] >= 64 {
        return None;
    }
    let count: u64 = read_u64(payload, 0);
    let width: u8 = payload[8];
    assert(0 <= count * width <= 0x1_0000_0000_0000_0000 * 64) by (nonlinear_arith)
        requires
            0 <= count <= 0xffff_ffff_ffff_ffff,
            0 <= width < 64,
    ;
    let need: u128 = (count as u128 * width as u128 + 7) / 8;
    if need > u64::MAX as u128 {
        return None;
    }
    match get_window(payload, 17, need as u64) {
        None => None,
        Some(packed) => Some(
            (
                NumSource::Packed { packed, width: width as usize, min: read_i64(payload, 9) },
                min_u64(count, rows as u64) as usize,
            ),
        ),
    }
}

impl QuerySeq {
    /// The values of a plain column.
    pub open spec fn plain(self, rows: int, payload: Seq<u8>) -> (NumSeq, int) {
        if self.bits {
            plain_truths(rows, payload)
        } else {
            plain_numbers(self.ints, rows, payload)
        }
    }

    /// The numbers of a column that can be read in place.
    pub open spec fn direct(self, version: u8, rows: int, col: Seq<u8>) -> Option<(NumSeq, int)> {
        let off = tag_len(version);
        let payload = tail(col, off);
        if encoding_of(version, col) == COL_ENCODING_PLAIN && col.len() > off + 8 {
            Some(self.plain(rows, payload))
        } else if self.packed && encoding_of(version, col) == COL_ENCODING_BITPACK && self.ints
            && col.len() >= off + 17 {
            packed_numbers(rows, payload)
        } else {
            None
        }
    }

    /// `acc` with the rows of a column that is not read in place. Missing rows are left out.
    pub open spec fn decode<C: ColumnCodec>(
        self,
        c: C,
        kind: ColumnType,
        version: u8,
        rows: int,
        del: Option<Seq<u8>>,
        nulls: Seq<u8>,
        col: Seq<u8>,
        base: int,
        acc: Seq<usize>,
    ) -> Result<Seq<usize>, ScanError> {
        let payload = tail(col, tag_len(version));
        if version >= 1 && col.len() == 0 {
            Err(ScanError::Corrupt)
        } else if encoding_of(version, col) == COL_ENCODING_PLAIN && payload.len() >= 8 {
            let (src, n) = self.plain(rows, payload);
            Ok(select(num_rows(src, self.test, del, Some(nulls)), n, base, acc, self.max))
        } else {
            match c.decoded(version >= 1, col, kind) {
                None => Err(ScanError::Codec),
                Some((ColumnSeq::Int64(v), _)) => Ok(
                    select(
                        num_rows(NumSeq::Ints(v), self.test, del, Some(nulls)),
                        min2(v.len() as int, rows),
                        base,
                        acc,
                        self.max,
                    ),
                ),
                Some((ColumnSeq::Float64(v), _)) => Ok(
                    select(
                        num_rows(NumSeq::Reals(v), self.test, del, Some(nulls)),
                        min2(v.len() as int, rows),
                        base,
                        acc,
                        self.max,
                    ),
                ),
                Some((ColumnSeq::Bool { data, len }, _)) if self.bits => Ok(
                    select(
                        num_rows(NumSeq::Bits(data), self.test, del, Some(nulls)),
                        min2(min2(len as int, rows), 8 * data.len() as int),
                        base,
                        acc,
                        self.max,
                    ),
                ),
                Some(_) => Ok(acc),
            }
        }
    }

    /// `acc` with the rows of a row group whose columns are walked over.
    pub open spec fn walked<C: ColumnCodec>(
        self,
        c: C,
        schema: OnDemandSchema,
        g: GroupSeq,
        rows: int,
        del: Option<Seq<u8>>,
        base: int,
        acc: Seq<usize>,
    ) -> Result<Seq<usize>, ScanError> {
        let bm = bitmap_len(rows);
        let tagged = g.version >= 1;
        match walk(c, schema, tagged, g.body, bm, 0, id_section(rows, g.ids) + bm, self.col) {
            Err(e) => Err(e),
            Ok(None) => Ok(acc),
            Ok(Some(p)) => match self.decode(
                c,
                schema.kind(self.col),
                g.version,
                rows,
                del,
                g.body.subrange(p, p + bm),
                tail(g.body, p + bm),
                base,
                acc,
            ) {
                Err(e) => Err(e),
                Ok(a) => match walk(
                    c,
                    schema,
                    tagged,
                    g.body,
                    bm,
                    self.col,
                    p,
                    schema.columns@.len() as int,
                ) {
                    Err(e) => Err(e),
                    Ok(_) => Ok(a),
                },
            },
        }
    }

    /// `acc` with the rows of row group `i`.
    pub open spec fn group<C: ColumnCodec>(
        self,
        c: C,
        f: V4Footer,
        file: Seq<u8>,
        i: int,
        acc: Seq<usize>,
    ) -> Result<Seq<usize>, ScanError> {
        let meta = f.row_groups@[i];
        let rows = meta.row_count as int;
        let bm = bitmap_len(rows);
        let base = rows_before(f.row_groups@, i);
        if acc.len() >= self.max || rows == 0 || self.test.misses(f.zone(i, self.col, false)) {
            Ok(acc)
        } else {
            match group_of(c, meta, file) {
                Err(e) => Err(e),
                Ok(g) => match window(g.body, id_section(rows, g.ids), bm) {
                    None => Err(ScanError::DeletionsTruncated),
                    Some(d) => {
                        let del = if meta.deletion_count > 0 {
                            Some(d)
                        } else {
                            None
                        };
                        match f.rcix(i, self.col) {
                            Some(o) if g.flag == RG_COMPRESS_NONE => match window(g.body, o, bm) {
                                None => Ok(acc),
                                Some(nulls) => match self.direct(
                                    g.version,
                                    rows,
                                    tail(g.body, o + bm),
                                ) {
                                    Some((src, n)) => Ok(
                                        select(
                                            num_rows(src, self.test, del, Some(nulls)),
                                            n,
                                            base,
                                            acc,
                                            self.max,
                                        ),
                                    ),
                                    None => self.walked(c, f.schema, g, rows, del, base, acc),
                                },
                            },
                            _ => self.walked(c, f.schema, g, rows, del, base, acc),
                        }
                    },
                },
            }
        }
    }

    /// The rows of the first `k` row groups.
    pub open spec fn scan<C: ColumnCodec>(self, c: C, f: V4Footer, file: Seq<u8>, k: int) -> Result<
        Seq<usize>,
        ScanError,
    >
        decreases k,
    {
        if k <= 0 {
            Ok(Seq::empty())
        } else {
            match self.scan(c, f, file, k - 1) {
                Err(e) => Err(e),
                Ok(acc) => self.group(c, f, file, k - 1, acc),
            }
        }
    }
}

impl NumQuery {
    fn plain<'a>(&self, rows: u32, payload: &'a [u8]) -> (r: (NumSource<'a>, usize))
        requires
            payload.len() >= 8,
        ensures
            (r.0@, r.1 as int) == self@.plain(rows as int, payload@),
            r.0@.covers(r.1 as int),
            r.1 <= rows,
    {
        if self.bits {
            get_plain_truths(rows, payload)
        } else {
            get_plain_numbers(self.ints, rows, payload)
        }
    }

    fn direct<'a>(&self, version: u8, rows: u32, col: &'a [u8]) -> (r: Option<
        (NumSource<'a>, usize),
    >)
        ensures
            match r {
                None => self@.direct(version, rows as int, col@) is None,
                Some((src, n)) => self@.direct(version, rows as int, col@) == Some((src@, n as int))
                    && src@.covers(n as int) && n <= rows,
            },
    {
        let off: usize = get_tag_len(version);
        let encoding: u8 = get_encoding(version, col);
        if encoding == COL_ENCODING_PLAIN && col.len() > off + 8 {
            return Some(self.plain(rows, get_tail(col, off)));
        }
        if self.packed && encoding == COL_ENCODING_BITPACK && self.ints && col.len() >= off + 17 {
            return get_packed_numbers(rows, get_tail(col, off));
        }
        None
    }

    fn decode<C: ColumnCodec>(
        &self,
        c: &C,
        kind: ColumnType,
        version: u8,
        rows: u32,
        del: Option<&[u8]>,
        nulls: &[u8],
        col: &[u8],
        base: usize,
        acc: &mut Vec<usize>,
    ) -> (r: Result<(), ScanError>)
        requires
            base + rows <= usize::MAX,
        ensures
            outcome(
                r,
                final(acc)@,
                self@.decode(
                    *c,
                    kind,
                    version,
                    rows as int,
                    slice_view(del),
                    nulls@,
                    col@,
                    base as int,
                    old(acc)@,
                ),
            ),
    {
        if version >= 1 && col.len() == 0 {
            return Err(ScanError::Corrupt);
        }
        let payload: &[u8] = get_tail(col, get_tag_len(version));
        if get_encoding(version, col) == COL_ENCODING_PLAIN && payload.len() >= 8 {
            let (src, n): (NumSource, usize) = self.plain(rows, payload);
            src.select(&self.test, del, Some(nulls), n, base, acc, self.max);
            return Ok(());
        }
        match c.read_column(version >= 1, col, kind) {
            None => Err(ScanError::Codec),
            Some((ColumnData::Int64(v), _)) => {
                let n: usize = min_u64(v.len() as u64, rows as u64) as usize;
                NumSource::Ints(&v).select(
                    &self.test,
                    del,
                    Some(nulls),
                    n,
                    base,
                    acc,
                    self.max,
                );
                Ok(())
            },
            Some((ColumnData::Float64(v), _)) => {
                let n: usize = min_u64(v.len() as u64, rows as u64) as usize;
                NumSource::Reals(&v).select(
                    &self.test,
                    del,
                    Some(nulls),
                    n,
                    base,
                    acc,
                    self.max,
                );
                Ok(())
            },
            Some((ColumnData::Bool { data, len }, _)) => {
                if !self.bits {
                    return Ok(());
                }
                let there: u64 = if data.len() as u64 <= 0xffff_ffff {
                    8 * data.len() as u64
                } else {
                    rows as u64
                };
                let n: usize = min_u64(min_u64(len as u64, rows as u64), there) as usize;
                NumSource::Bits(&data).select(
                    &self.test,
                    del,
                    Some(nulls),
                    n,
                    base,
                    acc,
                    self.max,
                );
                Ok(())
            },
            Some(_) => Ok(()),
        }
    }

    fn walked<C: ColumnCodec>(
        &self,
        c: &C,
        schema: &OnDemandSchema,
        g: &Group,
        rows: u32,
        del: Option<&[u8]>,
        base: usize,
        acc: &mut Vec<usize>,
    ) -> (r: Result<(), ScanError>)
        requires
            base + rows <= usize::MAX,
            self.col < schema.columns@.len(),
        ensures
            outcome(
                r,
                final(acc)@,
                self@.walked(
                    *c,
                    *schema,
                    g@,
                    rows as int,
                    slice_view(del),
                    base as int,
                    old(acc)@,
                ),
            ),
    {
        let bm: u64 = rg_bitmap_len(rows);
        let body: &[u8] = g.body();
        let tagged: bool = g.version >= 1;
        let first: u64 = rg_id_section_len(rows, g.ids) + bm;
        let at: usize = match walk_columns(c, schema, tagged, body, bm, 0, first, self.col) {
            Err(e) => {
                return Err(e);
            },
            Ok(None) => {
                return Ok(());
            },
            Ok(Some(p)) => p,
        };
        let start: usize = at + bm as usize;
        let nulls: &[u8] = vstd::slice::slice_subrange(body, at, start);
        match self.decode(
            c,
            schema.columns[self.col].1,
            g.version,
            rows,
            del,
            nulls,
            get_tail(body, start),
            base,
            acc,
        ) {
            Err(e) => {
                return Err(e);
            },
            Ok(()) => {},
        }
        match walk_columns(
            c,
            schema,
            tagged,
            body,
            bm,
            self.col,
            at as u64,
            schema.columns.len(),
        ) {
            Err(e) => Err(e),
            Ok(_) => Ok(()),
        }
    }

    fn group<C: ColumnCodec>(
        &self,
        c: &C,
        f: &V4Footer,
        file: &[u8],
        i: usize,
        base: usize,
        acc: &mut Vec<usize>,
    ) -> (r: Result<(), ScanError>)
        requires
            i < f.row_groups@.len(),
            self.col < f.schema.columns@.len(),
            base == rows_before(f.row_groups@, i as int),
            base + f.row_groups@[i as int].row_count <= usize::MAX,
        ensures
            outcome(r, final(acc)@, self@.group(*c, *f, file@, i as int, old(acc)@)),
    {
        let meta: RowGroupMeta = f.row_groups[i];
        let rows: u32 = meta.row_count;
        if acc.len() >= self.max || rows == 0 || self.test.misses(f.zone_map(i, self.col, false)) {
            return Ok(());
        }
        let g: Group = match open_group(c, &meta, file) {
            Err(e) => {
                return Err(e);
            },
            Ok(g) => g,
        };
        let bm: u64 = rg_bitmap_len(rows);
        let body: &[u8] = g.body();
        let deleted: &[u8] = match get_window(body, rg_id_section_len(rows, g.ids), bm) {
            None => {
                return Err(ScanError::DeletionsTruncated);
            },
            Some(d) => d,
        };
        let del: Option<&[u8]> = if meta.deletion_count > 0 {
            Some(deleted)
        } else {
            None
        };
        if g.flag == RG_COMPRESS_NONE {
            if let Some(o) = f.column_offset(i, self.col) {
                match get_window(body, o as u64, bm) {
                    None => {
                        return Ok(());
                    },
                    Some(nulls) => {
                        let col: &[u8] = get_tail(body, (o as u64 + bm) as usize);
                        if let Some((src, n)) = self.direct(g.version, rows, col) {
                            src.select(&self.test, del, Some(nulls), n, base, acc, self.max);
                            return Ok(());
                        }
                    },
                }
            }
        }
        self.walked(c, &f.schema, &g, rows, del, base, acc)
    }

    fn scan<C: ColumnCodec>(&self, c: &C, f: &V4Footer, file: &[u8]) -> (r: Result<
        Vec<usize>,
        ScanError,
    >)
        requires
            f.wf(),
            self.col < f.schema.columns@.len(),
        ensures
            match r {
                Ok(v) => self@.scan(*c, *f, file@, f.row_groups@.len() as int) == Ok::<
                    Seq<usize>,
                    ScanError,
                >(v@),
                Err(e) => self@.scan(*c, *f, file@, f.row_groups@.len() as int) == Err::<
                    Seq<usize>,
                    ScanError,
                >(e),
            },
    {
        let mut acc: Vec<usize> = Vec::new();
        let mut base: usize = 0;
        let mut i: usize = 0;
        while i < f.row_groups.len()
            invariant
                i <= f.row_groups@.len(),
                f.wf(),
                self.col < f.schema.columns@.len(),
                base == rows_before(f.row_groups@, i as int),
                self@.scan(*c, *f, file@, i as int) == Ok::<Seq<usize>, ScanError>(acc@),
            decreases f.row_groups@.len() - i,
        {
            proof {
                rows_before_monotonic(f.row_groups@, i + 1, f.row_groups@.len() as int);
            }
            match self.group(c, f, file, i, base, &mut acc) {
                Err(e) => {
                    proof {
                        self@.scan_failed(*c, *f, file@, i + 1, f.row_groups@.len() as int);
                    }
                    return Err(e);
                },
                Ok(()) => {},
            }
            base = base + f.row_groups[i].row_count as usize;
            i = i + 1;
        }
        Ok(acc)
    }
}

impl QuerySeq {
    /// A failed scan stays failed.
    pub proof fn scan_failed<C: ColumnCodec>(
        self,
        c: C,
        f: V4Footer,
        file: Seq<u8>,
        j: int,
        k: int,
    )
        requires
            0 <= j <= k,
            self.scan(c, f, file, j) is Err,
        ensures
            self.scan(c, f, file, k) == self.scan(c, f, file, j),
        decreases k,
    {
        if j < k {
            self.scan_failed(c, f, file, j, k - 1);
        }
    }
}

/// Whether a step that works on an accumulator came out as `expected`. A failed step may leave
/// anything behind.
pub open spec fn outcome(
    r: Result<(), ScanError>,
    acc: Seq<usize>,
    expected: Result<Seq<usize>, ScanError>,
) -> bool {
    match r {
        Ok(()) => expected == Ok::<Seq<usize>, ScanError>(acc),
        Err(e) => expected == Err::<Seq<usize>, ScanError>(e),
    }
}

/// Whether row group `i` can be scanned in place: uncompressed, with the offset of the column on
/// record, an encoding that is read in place, and its deletion bitmap where it has deletions.
pub open spec fn fast_group(f: V4Footer, file: Seq<u8>, col: int, ints: bool, i: int) -> bool {
    let meta = f.row_groups@[i];
    let rows = meta.row_count as int;
    let bm = bitmap_len(rows);
    match (stored_group(meta, file), f.rcix(i, col)) {
        (Ok(s), Some(o)) => {
            &&& s[28] == RG_COMPRESS_NONE
            &&& s[29] >= 1
            &&& 32 + o + bm < s.len()
            &&& (s[32 + o + bm] == COL_ENCODING_PLAIN || (s[32 + o + bm] == COL_ENCODING_BITPACK
                && ints))
            &&& meta.deletion_count > 0 ==> 32 + id_section(rows, s[30]) + bm <= s.len()
        },
        _ => false,
    }
}

/// Tests whether row group `i` can be scanned in place.
fn is_fast_group(f: &V4Footer, file: &[u8], col: usize, ints: bool, i: usize) -> (r: bool)
    requires
        i < f.row_groups@.len(),
    ensures
        r == fast_group(*f, file@, col as int, ints, i as int),
{
    let meta: RowGroupMeta = f.row_groups[i];
    let bm: u64 = rg_bitmap_len(meta.row_count);
    match (get_stored(&meta, file), f.column_offset(i, col)) {
        (Ok(s), Some(o)) => {
            let at: u64 = 32 + o as u64 + bm;
            if s[28] != RG_COMPRESS_NONE || s[29] < 1 || at >= s.len() as u64 {
                return false;
            }
            let encoding: u8 = s[at as usize];
            if encoding != COL_ENCODING_PLAIN && !(encoding == COL_ENCODING_BITPACK && ints) {
                return false;
            }
            meta.deletion_count == 0 || 32 + rg_id_section_len(meta.row_count, s[30]) + bm
                <= s.len() as u64
        },
        _ => false,
    }
}

impl QuerySeq {
    /// The numbers of a tagged column that is scanned in place.
    pub open spec fn in_place(self, rows: int, col: Seq<u8>) -> Option<(NumSeq, int)> {
        let payload = tail(col, 1);
        if col[0] == COL_ENCODING_PLAIN && payload.len() >= 8 {
            Some(plain_numbers(self.ints, rows, payload))
        } else if col[0] == COL_ENCODING_BITPACK && self.ints {
            packed_numbers(rows, payload)
        } else {
            None
        }
    }

    /// `acc` with the rows of row group `i`, scanned in place.
    pub open spec fn fast(self, f: V4Footer, file: Seq<u8>, i: int, acc: Seq<usize>) -> Seq<
        usize,
    > {
        let meta = f.row_groups@[i];
        let rows = meta.row_count as int;
        let bm = bitmap_len(rows);
        let s = file.subrange(meta.offset as int, meta.offset + meta.data_size);
        let body = tail(s, 32);
        let o = f.rcix(i, self.col)->0;
        let ids = id_section(rows, s[30]);
        let del = if meta.deletion_count > 0 {
            Some(body.subrange(ids, ids + bm))
        } else {
            None
        };
        let nulls = body.subrange(o, o + bm);
        match self.in_place(rows, tail(body, o + bm)) {
            None => acc,
            Some((src, n)) => select(
                num_rows(src, self.test, del, Some(nulls)),
                n,
                rows_before(f.row_groups@, i),
                acc,
                self.max,
            ),
        }
    }

    /// The rows of the first `k` row groups, scanned in place.
    pub open spec fn fast_scan(self, f: V4Footer, file: Seq<u8>, k: int) -> Seq<usize>
        decreases k,
    {
        if k <= 0 {
            Seq::empty()
        } else {
            self.fast(f, file, k - 1, self.fast_scan(f, file, k - 1))
        }
    }
}

/// Whether every row group can be scanned in place.
pub open spec fn all_fast(f: V4Footer, file: Seq<u8>, col: int, ints: bool) -> bool {
    forall|i: int| 0 <= i < f.row_groups@.len() ==> #[trigger] fast_group(f, file, col, ints, i)
}

/// Tests whether every row group can be scanned in place.
fn are_all_fast(f: &V4Footer, file: &[u8], col: usize, ints: bool) -> (r: bool)
    ensures
        r == all_fast(*f, file@, col as int, ints),
{
    let mut i: usize = 0;
    while i < f.row_groups.len()
        invariant
            i <= f.row_groups@.len(),
            forall|k: int| 0 <= k < i ==> #[trigger] fast_group(*f, file@, col as int, ints, k),
        decreases f.row_groups@.len() - i,
    {
        if !is_fast_group(f, file, col, ints, i) {
            return false;
        }
        i = i + 1;
    }
    true
}

impl NumQuery {
    fn in_place<'a>(&self, rows: u32, col: &'a [u8]) -> (r: Option<(NumSource<'a>, usize)>)
        requires
            col.len() > 0,
        ensures
            match r {
                None => self@.in_place(rows as int, col@) is None,
                Some((src, n)) => self@.in_place(rows as int, col@) == Some((src@, n as int))
                    && src@.covers(n as int) && n <= rows,
            },
    {
        let payload: &[u8] = get_tail(col, 1);
        if col[0] == COL_ENCODING_PLAIN && payload.len() >= 8 {
            Some(get_plain_numbers(self.ints, rows, payload))
        } else if col[0] == COL_ENCODING_BITPACK && self.ints {
            get_packed_numbers(rows, payload)
        } else {
            None
        }
    }

    /// Appends the rows of row group `i`, scanned in place.
    fn fast(&self, f: &V4Footer, file: &[u8], i: usize, base: usize, acc: &mut Vec<usize>)
        requires
            i < f.row_groups@.len(),
            fast_group(*f, file@, self.col as int, self.ints, i as int),
            base == rows_before(f.row_groups@, i as int),
            base + f.row_groups@[i as int].row_count <= usize::MAX,
        ensures
            final(acc)@ == self@.fast(*f, file@, i as int, old(acc)@),
    {
        let meta: RowGroupMeta = f.row_groups[i];
        let rows: u32 = meta.row_count;
        let bm: usize = rg_bitmap_len(rows) as usize;
        if let (Ok(s), Some(o)) = (get_stored(&meta, file), f.column_offset(i, self.col)) {
            let o: usize = o as usize;
            let body: &[u8] = get_tail(s, 32);
            let del: Option<&[u8]> = if meta.deletion_count > 0 {
                let ids: usize = rg_id_section_len(rows, s[30]) as usize;
                Some(vstd::slice::slice_subrange(body, ids, ids + bm))
            } else {
                None
            };
            let nulls: &[u8] = vstd::slice::slice_subrange(body, o, o + bm);
            if let Some((src, n)) = self.in_place(rows, get_tail(body, o + bm)) {
                src.select(&self.test, del, Some(nulls), n, base, acc, self.max);
            }
        }
    }

    fn fast_scan(&self, f: &V4Footer, file: &[u8]) -> (r: Vec<usize>)
        requires
            f.wf(),
            all_fast(*f, file@, self.col as int, self.ints),
        ensures
            r@ == self@.fast_scan(*f, file@, f.row_groups@.len() as int),
    {
        let mut acc: Vec<usize> = Vec::new();
        let mut base: usize = 0;
        let mut i: usize = 0;
        while i < f.row_groups.len()
            invariant
                i <= f.row_groups@.len(),
                f.wf(),
                all_fast(*f, file@, self.col as int, self.ints),
                base == rows_before(f.row_groups@, i as int),
                acc@ == self@.fast_scan(*f, file@, i as int),
            decreases f.row_groups@.len() - i,
        {
            proof {
                rows_before_monotonic(f.row_groups@, i + 1, f.row_groups@.len() as int);
                assert(fast_group(*f, file@, self.col as int, self.ints, i as int));
            }
            self.fast(f, file, i, base, &mut acc);
            base = base + f.row_groups[i].row_count as usize;
            i = i + 1;
        }
        acc
    }
}

/// One half, and the doubles 0 and 1.
pub const HALF: u64 = 0x3fe0_0000_0000_0000;

/// The double 1.
pub const ONE: u64 = 0x3ff0_0000_0000_0000;

/// A bound on bits: 1 above one half, else 0.
pub open spec fn bit_bound(v: F64) -> F64 {
    if lt(F64 { bits: HALF }, v) {
        F64 { bits: ONE }
    } else {
        F64 { bits: 0 }
    }
}

fn get_bit_bound(v: F64) -> (r: F64)
    ensures
        r == bit_bound(v),
{
    if F64::from_bits(HALF).lt(v) {
        F64::from_bits(ONE)
    } else {
        F64::from_bits(0)
    }
}

/// The query for a range of a column.
pub open spec fn range_query(f: V4Footer, col: usize, low: F64, high: F64, limit: Option<usize>) -> QuerySeq {
    let kind = f.schema.kind(col as int);
    let bits = kind is Bool;
    QuerySeq {
        col: col as int,
        bits,
        ints: is_int(kind),
        packed: true,
        test: if bits {
            range_test(bit_bound(low), bit_bound(high))
        } else {
            range_test(low, high)
        },
        max: max_rows(limit),
    }
}

/// The query for some numbers of a column.
pub open spec fn in_query(f: V4Footer, col: usize, values: Seq<i64>, limit: Option<usize>) -> QuerySeq {
    QuerySeq {
        col: col as int,
        bits: false,
        ints: is_int(f.schema.kind(col as int)),
        packed: false,
        test: in_test(values),
        max: max_rows(limit),
    }
}

/// Rows wrapped as an answer.
pub open spec fn answer(r: Result<Seq<usize>, ScanError>) -> Result<
    Option<Seq<usize>>,
    ScanError,
> {
    match r {
        Err(e) => Err(e),
        Ok(v) => Ok(Some(v)),
    }
}

impl<C: ColumnCodec> OnDemandStorage<C> {
    /// The rows whose value lies in `low..=high`: no answer without a catalogue or for a column
    /// that is not there or holds no numbers. Truth values count as 0 and 1.
    pub open spec fn numeric_range(
        self,
        col_name: Seq<char>,
        low: F64,
        high: F64,
        limit: Option<usize>,
    ) -> Result<Option<Seq<usize>>, ScanError> {
        match self.footer {
            None => Ok(None),
            Some(f) => match f.schema.index_of(col_name) {
                None => Ok(None),
                Some(col) => {
                    let kind = f.schema.kind(col as int);
                    if !(kind is Bool) && !is_int(kind) && !is_float(kind) {
                        Ok(None)
                    } else {
                        match self.file {
                            None => Err(ScanError::NotOpen),
                            Some(file) => {
                                let q = range_query(f, col, low, high, limit);
                                let n = f.row_groups@.len() as int;
                                if limit is None && !q.bits && n > 1 && all_fast(
                                    f,
                                    file@,
                                    q.col,
                                    q.ints,
                                ) {
                                    Ok(Some(q.fast_scan(f, file@, n)))
                                } else {
                                    answer(q.scan(self.codec, f, file@, n))
                                }
                            },
                        }
                    }
                },
            },
        }
    }

    /// Finds the rows whose value lies in `low..=high`, in order, up to a limit.
    pub fn scan_numeric_range_mmap(
        &self,
        col_name: &str,
        low: F64,
        high: F64,
        limit: Option<usize>,
    ) -> (r: Result<Option<Vec<usize>>, ScanError>)
        requires
            self.wf(),
        ensures
            rows_view(r) == self.numeric_range(col_name@, low, high, limit),
    {
        let f: &V4Footer = match &self.footer {
            None => {
                return Ok(None);
            },
            Some(f) => f,
        };
        let col: usize = match f.schema.get_index(col_name) {
            None => {
                return Ok(None);
            },
            Some(i) => i,
        };
        let kind: ColumnType = f.schema.columns[col].1;
        let bits: bool = matches!(kind, ColumnType::Bool);
        if !bits && !kind.is_int() && !kind.is_float() {
            return Ok(None);
        }
        let file: &[u8] = match &self.file {
            None => {
                return Err(ScanError::NotOpen);
            },
            Some(v) => v.as_slice(),
        };
        let test: NumTest = if bits {
            NumTest::range(get_bit_bound(low), get_bit_bound(high))
        } else {
            NumTest::range(low, high)
        };
        let max: usize = match limit {
            None => usize::MAX,
            Some(n) => n,
        };
        let q: NumQuery = NumQuery { col, bits, ints: kind.is_int(), packed: true, test, max };
        assert(q@ == range_query(*f, col, low, high, limit));
        if limit.is_none() && !bits && f.row_groups.len() > 1 && are_all_fast(f, file, col, q.ints) {
            return Ok(Some(q.fast_scan(f, file)));
        }
        match q.scan(&self.codec, f, file) {
            Err(e) => Err(e),
            Ok(v) => Ok(Some(v)),
        }
    }

    /// The rows whose value is one of some numbers.
    pub open spec fn numeric_in(
        self,
        col_name: Seq<char>,
        values: Seq<i64>,
        limit: Option<usize>,
    ) -> Result<Option<Seq<usize>>, ScanError> {
        if values.len() == 0 {
            Ok(Some(Seq::empty()))
        } else {
            match self.footer {
                None => Ok(None),
                Some(f) => match f.schema.index_of(col_name) {
                    None => Ok(None),
                    Some(col) => {
                        let kind = f.schema.kind(col as int);
                        if !is_int(kind) && !is_float(kind) {
                            Ok(None)
                        } else {
                            match self.file {
                                None => Err(ScanError::NotOpen),
                                Some(file) => answer(
                                    in_query(f, col, values, limit).scan(
                                        self.codec,
                                        f,
                                        file@,
                                        f.row_groups@.len() as int,
                                    ),
                                ),
                            }
                        }
                    },
                },
            }
        }
    }

    /// Finds the rows whose value is one of some numbers, in order, up to a limit.
    pub fn scan_numeric_in_mmap(&self, col_name: &str, values: &[i64], limit: Option<usize>) -> (r:
        Result<Option<Vec<usize>>, ScanError>)
        requires
            self.wf(),
        ensures
            rows_view(r) == self.numeric_in(col_name@, values@, limit),
    {
        if values.len() == 0 {
            return Ok(Some(Vec::new()));
        }
        let f: &V4Footer = match &self.footer {
            None => {
                return Ok(None);
            },
            Some(f) => f,
        };
        let col: usize = match f.schema.get_index(col_name) {
            None => {
                return Ok(None);
            },
            Some(i) => i,
        };
        let kind: ColumnType = f.schema.columns[col].1;
        if !kind.is_int() && !kind.is_float() {
            return Ok(None);
        }
        let file: &[u8] = match &self.file {
            None => {
                return Err(ScanError::NotOpen);
            },
            Some(v) => v.as_slice(),
        };
        let max: usize = match limit {
            None => usize::MAX,
            Some(n) => n,
        };
        let q: NumQuery = NumQuery {
            col,
            bits: false,
            ints: kind.is_int(),
            packed: false,
            test: NumTest::one_of(values),
            max,
        };
        assert(q@ == in_query(*f, col, values@, limit));
        match q.scan(&self.codec, f, file) {
            Err(e) => Err(e),
            Ok(v) => Ok(Some(v)),
        }
    }
}

} // verus!
