//! String columns: plain ones, dictionaries, and tests on their values.

use vstd::prelude::*;
use vstd::slice::slice_subrange;

use crate::bytes::{read_u32, read_u64, u32_le, u64_le};
use crate::column::{DictSeq, StringDictView};
use crate::group::{get_tail, tail};
use crate::like::{like_matches_bytes, LikeKind, LikeShape};
use crate::model::bytes_eq;
use crate::numeric::{is_open, min2, min_u64, row_open, slice_view};
use crate::select::{select, select_checked, select_rows, select_rows_checked};

verus! {

/// A plain string column: a count, one offset more than that, the length of the data, the data.
#[verifier::ext_equal]
pub struct TextSeq {
    pub count: int,
    pub offsets: Seq<u8>,
    pub declared: int,
    pub rest: Seq<u8>,
}

/// A plain string column.
#[derive(Clone, Copy)]
pub struct PlainText<'a> {
    pub count: usize,
    pub offsets: &'a [u8],
    pub declared: u64,
    pub rest: &'a [u8],
}

impl<'a> View for PlainText<'a> {
    type V = TextSeq;

    open spec fn view(&self) -> TextSeq {
        TextSeq {
            count: self.count as int,
            offsets: self.offsets@,
            declared: self.declared as int,
            rest: self.rest@,
        }
    }
}

/// The plain string column in `data`, where its offsets and the length of its data are there.
pub open spec fn plain_text(data: Seq<u8>) -> Option<TextSeq> {
    if data.len() < 8 {
        None
    } else {
        let count = u64_le(data, 0) as int;
        let at = 8 + (count + 1) * 4;
        if at + 8 > data.len() {
            None
        } else {
            Some(
                TextSeq {
                    count,
                    offsets: data.subrange(8, at),
                    declared: u64_le(data, at) as int,
                    rest: tail(data, at + 8),
                },
            )
        }
    }
}

/// Reads a plain string column.
pub fn read_plain_text<'a>(data: &'a [u8]) -> (r: Option<PlainText<'a>>)
    ensures
        match r {
            None => plain_text(data@) is None,
            Some(t) => plain_text(data@) == Some(t@) && t.wf(),
        },
{
    if data.len() < 8 {
        return None;
    }
    let count: u64 = read_u64(data, 0);
    let end: u128 = 8 + (count as u128 + 1) * 4 + 8;
    if end > data.len() as u128 {
        return None;
    }
    let at: usize = end as usize - 8;
    Some(
        PlainText {
            count: count as usize,
            offsets: slice_subrange(data, 8, at),
            declared: read_u64(data, at),
            rest: get_tail(data, at + 8),
        },
    )
}

impl TextSeq {
    /// Where value `i` starts in the data.
    pub open spec fn start(self, i: int) -> int {
        u32_le(self.offsets, i * 4) as int
    }

    /// Where value `i` ends in the data.
    pub open spec fn end(self, i: int) -> int {
        u32_le(self.offsets, (i + 1) * 4) as int
    }

    /// The data, as long as it is declared to be.
    pub open spec fn raw(self) -> Seq<u8> {
        self.rest.subrange(0, min2(self.declared, self.rest.len() as int))
    }
}

impl<'a> PlainText<'a> {
    /// Whether there is one offset more than values.
    pub open spec fn wf(self) -> bool {
        self.offsets@.len() == (self.count + 1) * 4
    }

    /// Where value `i` starts in the data.
    pub fn start(&self, i: usize) -> (r: usize)
        requires
            self.wf(),
            i <= self.count,
        ensures
            r == self@.start(i as int),
    {
        assert((i + 1) * 4 <= self.offsets.len());
        read_u32(self.offsets, i * 4) as usize
    }

    /// Where value `i` ends in the data.
    pub fn end(&self, i: usize) -> (r: usize)
        requires
            self.wf(),
            i < self.count,
        ensures
            r == self@.end(i as int),
    {
        assert((i + 2) * 4 <= self.offsets.len());
        read_u32(self.offsets, (i + 1) * 4) as usize
    }

    /// The data, as long as it is declared to be.
    pub fn raw(&self) -> (r: &'a [u8])
        ensures
            r@ == self@.raw(),
    {
        let n: usize = min_u64(self.declared, self.rest.len() as u64) as usize;
        slice_subrange(self.rest, 0, n)
    }
}

/// Which strings a scan looks for.
pub enum StrTest<'a> {
    /// One of these.
    OneOf(&'a Vec<Vec<u8>>),
    /// Those that match a pattern.
    Like(&'a LikeKind),
}

/// Which strings a scan looks for.
pub enum StrTestSeq {
    OneOf(Seq<Seq<u8>>),
    Like(LikeShape),
}

/// Byte strings as sequences.
pub open spec fn strings_view(v: Seq<Vec<u8>>) -> Seq<Seq<u8>> {
    Seq::new(v.len(), |i: int| v[i]@)
}

impl<'a> View for StrTest<'a> {
    type V = StrTestSeq;

    open spec fn view(&self) -> StrTestSeq {
        match *self {
            StrTest::OneOf(v) => StrTestSeq::OneOf(strings_view(v@)),
            StrTest::Like(k) => StrTestSeq::Like(k@),
        }
    }
}

impl StrTestSeq {
    /// Whether a string passes.
    pub open spec fn accepts(self, s: Seq<u8>) -> bool {
        match self {
            StrTestSeq::OneOf(v) => v.contains(s),
            StrTestSeq::Like(k) => k.matches(s),
        }
    }
}

impl<'a> StrTest<'a> {
    /// Tests a string.
    pub fn accepts(&self, s: &[u8]) -> (r: bool)
        ensures
            r == self@.accepts(s@),
    {
        match self {
            StrTest::OneOf(v) => {
                let mut i: usize = 0;
                while i < v.len()
                    invariant
                        i <= v@.len(),
                        self@ == StrTestSeq::OneOf(strings_view(v@)),
                        forall|k: int| 0 <= k < i ==> strings_view(v@)[k] != s@,
                    decreases v@.len() - i,
                {
                    if bytes_eq(v[i].as_slice(), s) {
                        assert(strings_view(v@)[i as int] == s@);
                        return true;
                    }
                    i = i + 1;
                }
                false
            },
            StrTest::Like(k) => like_matches_bytes(k, s),
        }
    }
}

/// Whether value `i` of a plain column passes; values outside of the data do not.
pub open spec fn text_hit(t: TextSeq, test: StrTestSeq, i: int) -> bool {
    t.start(i) <= t.end(i) <= t.raw().len() && test.accepts(
        t.raw().subrange(t.start(i), t.end(i)),
    )
}

/// The rows of a plain column whose value passes.
pub open spec fn text_rows(
    t: TextSeq,
    test: StrTestSeq,
    del: Option<Seq<u8>>,
    nulls: Option<Seq<u8>>,
) -> spec_fn(int) -> bool {
    |i: int| row_open(del, nulls, i) && text_hit(t, test, i)
}

/// Appends the rows below `n` of a plain column whose value passes.
pub fn select_text(
    t: &PlainText,
    test: &StrTest,
    del: Option<&[u8]>,
    nulls: Option<&[u8]>,
    n: usize,
    base: usize,
    acc: &mut Vec<usize>,
    max: usize,
)
    requires
        t.wf(),
        n <= t.count,
        base + n <= usize::MAX,
    ensures
        final(acc)@ == select(
            text_rows(t@, test@, slice_view(del), slice_view(nulls)),
            n as int,
            base as int,
            old(acc)@,
            max as int,
        ),
{
    let ghost hit = text_rows(t@, test@, slice_view(del), slice_view(nulls));
    let raw: &[u8] = t.raw();
    let f = |i: usize| -> (r: bool)
        requires
            i < n,
        ensures
            r == hit(i as int),
        {
            if !is_open(del, nulls, i) {
                false
            } else {
                let s: usize = t.start(i);
                let e: usize = t.end(i);
                s <= e && e <= raw.len() && test.accepts(slice_subrange(raw, s, e))
            }
        };
    select_rows(f, Ghost(hit), n, base, acc, max);
}

/// The rows of a plain column whose value passes, where a value that ends before it starts is a
/// failure and one that ends beyond the data does not pass.
pub open spec fn strict_rows(
    t: TextSeq,
    test: StrTestSeq,
    del: Option<Seq<u8>>,
    nulls: Option<Seq<u8>>,
) -> spec_fn(int) -> Option<bool> {
    |i: int|
        if !row_open(del, nulls, i) || t.end(i) > t.raw().len() {
            Some(false)
        } else if t.start(i) > t.end(i) {
            None
        } else {
            Some(test.accepts(t.raw().subrange(t.start(i), t.end(i))))
        }
}

/// Appends the rows below `n` of a plain column whose value passes; `false` on a failure.
pub fn select_strict(
    t: &PlainText,
    test: &StrTest,
    del: Option<&[u8]>,
    nulls: Option<&[u8]>,
    n: usize,
    base: usize,
    acc: &mut Vec<usize>,
    max: usize,
) -> (ok: bool)
    requires
        t.wf(),
        n <= t.count,
        base + n <= usize::MAX,
    ensures
        ok ==> select_checked(
            strict_rows(t@, test@, slice_view(del), slice_view(nulls)),
            n as int,
            base as int,
            old(acc)@,
            max as int,
        ) == Some(final(acc)@),
        !ok ==> select_checked(
            strict_rows(t@, test@, slice_view(del), slice_view(nulls)),
            n as int,
            base as int,
            old(acc)@,
            max as int,
        ) is None,
{
    let ghost hit = strict_rows(t@, test@, slice_view(del), slice_view(nulls));
    let raw: &[u8] = t.raw();
    let f = |i: usize| -> (r: Option<bool>)
        requires
            i < n,
        ensures
            r == hit(i as int),
        {
            let s: usize = t.start(i);
            let e: usize = t.end(i);
            if !is_open(del, nulls, i) || e > raw.len() {
                Some(false)
            } else if s > e {
                None
            } else {
                Some(test.accepts(slice_subrange(raw, s, e)))
            }
        };
    select_rows_checked(f, Ghost(hit), n, base, acc, max)
}

/// Whether the value behind an index passes.
pub open spec fn dict_hit(d: DictSeq, test: StrTestSeq, k: int) -> bool {
    d.value(k) matches Some(v) && test.accepts(v)
}

/// The rows of a dictionary column whose value passes.
pub open spec fn dict_rows(
    d: DictSeq,
    test: StrTestSeq,
    del: Option<Seq<u8>>,
    nulls: Option<Seq<u8>>,
) -> spec_fn(int) -> bool {
    |i: int| row_open(del, nulls, i) && dict_hit(d, test, d.indices[i] as int)
}

/// Which values of a dictionary pass, by their index.
pub fn dict_flags(d: &StringDictView, test: &StrTest) -> (r: Vec<bool>)
    ensures
        r@.len() == d.values@.len(),
        forall|k: int|
            0 <= k < r@.len() ==> #[trigger] r@[k] == dict_hit(d@, test@, k + 1),
{
    let mut out: Vec<bool> = Vec::with_capacity(d.values.len());
    let mut k: usize = 0;
    while k < d.values.len()
        invariant
            k <= d.values@.len(),
            out@.len() == k,
            forall|j: int| 0 <= j < k ==> #[trigger] out@[j] == dict_hit(d@, test@, j + 1),
        decreases d.values@.len() - k,
    {
        assert(d@.values[k as int] == crate::column::bytes_view(d.values@[k as int]));
        let hit: bool = match &d.values[k] {
            None => false,
            Some(v) => test.accepts(v.as_slice()),
        };
        out.push(hit);
        k = k + 1;
    }
    out
}

/// Appends the rows below `n` of a dictionary column whose value passes.
pub fn select_dict(
    d: &StringDictView,
    test: &StrTest,
    del: Option<&[u8]>,
    nulls: Option<&[u8]>,
    n: usize,
    base: usize,
    acc: &mut Vec<usize>,
    max: usize,
)
    requires
        n <= d.indices@.len(),
        base + n <= usize::MAX,
    ensures
        final(acc)@ == select(
            dict_rows(d@, test@, slice_view(del), slice_view(nulls)),
            n as int,
            base as int,
            old(acc)@,
            max as int,
        ),
{
    let ghost hit = dict_rows(d@, test@, slice_view(del), slice_view(nulls));
    let flags: Vec<bool> = dict_flags(d, test);
    let f = |i: usize| -> (r: bool)
        requires
            i < n,
        ensures
            r == hit(i as int),
        {
            if !is_open(del, nulls, i) {
                false
            } else {
                let k: u32 = d.indices[i];
                k > 0 && ((k - 1) as u64) < flags.len() as u64 && flags[(k - 1) as usize]
            }
        };
    select_rows(f, Ghost(hit), n, base, acc, max);
}

} // verus!
