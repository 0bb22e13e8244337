//! Columns on their way out: what the arrays of a batch hold.

use ahash::AHashMap;
use vstd::prelude::*;
use vstd::slice::{slice_subrange, slice_to_vec};

use crate::bytes::{bit, bitmap_len, test_bit};
use crate::codec::ColumnCodec;
use crate::column::{ColumnData, ColumnSeq, VectorCodec};
use crate::column_ops::{gaps, list_rows};
use crate::dict_values::{text_of, text_or_empty};
use crate::double::F64;
use crate::model::{ColumnType, ScanError};
use crate::numeric::min2;
use crate::outside::{
    numbers_of_texts, text_from_bytes, text_index_get, text_index_insert, text_index_new,
};

verus! {

/// One array of a batch. `valid` tells which entries are there; all are where it is `None`.
#[allow(inconsistent_fields)]
#[derive(Debug, PartialEq, Eq)]
pub enum ArrayDesc {
    Int64 { values: Vec<i64>, valid: Option<Vec<bool>> },
    /// Microseconds.
    Timestamp { values: Vec<i64>, valid: Option<Vec<bool>> },
    /// Days.
    Date { values: Vec<i32>, valid: Option<Vec<bool>> },
    Float64 { values: Vec<F64>, valid: Option<Vec<bool>> },
    Bool { values: Vec<Option<bool>> },
    /// Texts, with wide offsets where `large`.
    Utf8 { values: Vec<Option<String>>, large: bool },
    /// Texts behind a dictionary.
    Dictionary { keys: Vec<u32>, values: Vec<String> },
    /// Bytes, with wide offsets where `large`.
    Binary { values: Vec<Option<Vec<u8>>>, large: bool },
    /// References to bytes that are kept elsewhere.
    Blob { refs: Vec<Option<Vec<u8>>> },
    /// Lists of `dim` floats of 32 bits each.
    FixedList { data: Vec<u8>, dim: u32 },
    /// Lists of `dim` floats of 16 bits each.
    Float16List { data: Vec<u8>, dim: u32 },
    /// Quantised vectors of `width` bytes each.
    Vectors { data: Vec<u8>, dim: u32, codec: VectorCodec, width: usize, valid: Option<Vec<bool>> },
    /// Nothing in any row.
    Null { rows: usize },
}

/// One array of a batch, as sequences.
#[verifier::ext_equal]
#[allow(inconsistent_fields)]
pub enum ArraySeq {
    Int64 { values: Seq<i64>, valid: Option<Seq<bool>> },
    Timestamp { values: Seq<i64>, valid: Option<Seq<bool>> },
    Date { values: Seq<i32>, valid: Option<Seq<bool>> },
    Float64 { values: Seq<F64>, valid: Option<Seq<bool>> },
    Bool { values: Seq<Option<bool>> },
    Utf8 { values: Seq<Option<Seq<char>>>, large: bool },
    Dictionary { keys: Seq<u32>, values: Seq<Seq<char>> },
    Binary { values: Seq<Option<Seq<u8>>>, large: bool },
    Blob { refs: Seq<Option<Seq<u8>>> },
    FixedList { data: Seq<u8>, dim: u32 },
    Float16List { data: Seq<u8>, dim: u32 },
    Vectors { data: Seq<u8>, dim: u32, codec: VectorCodec, width: int, valid: Option<Seq<bool>> },
    Null { rows: int },
}

/// Which entries are there.
pub open spec fn valid_view(v: Option<Vec<bool>>) -> Option<Seq<bool>> {
    match v {
        None => None,
        Some(b) => Some(b@),
    }
}

/// An optional text as characters.
pub open spec fn text_view(t: Option<String>) -> Option<Seq<char>> {
    match t {
        None => None,
        Some(s) => Some(s@),
    }
}

/// Optional texts as sequences.
pub open spec fn opt_texts_view(v: Seq<Option<String>>) -> Seq<Option<Seq<char>>> {
    Seq::new(v.len(), |i: int| text_view(v[i]))
}

/// Optional bytes as sequences.
pub open spec fn opt_bytes_view(v: Seq<Option<Vec<u8>>>) -> Seq<Option<Seq<u8>>> {
    Seq::new(v.len(), |i: int| crate::column::bytes_view(v[i]))
}

impl View for ArrayDesc {
    type V = ArraySeq;

    open spec fn view(&self) -> ArraySeq {
        match *self {
            ArrayDesc::Int64 { values, valid } => ArraySeq::Int64 {
                values: values@,
                valid: valid_view(valid),
            },
            ArrayDesc::Timestamp { values, valid } => ArraySeq::Timestamp {
                values: values@,
                valid: valid_view(valid),
            },
            ArrayDesc::Date { values, valid } => ArraySeq::Date {
                values: values@,
                valid: valid_view(valid),
            },
            ArrayDesc::Float64 { values, valid } => ArraySeq::Float64 {
                values: values@,
                valid: valid_view(valid),
            },
            ArrayDesc::Bool { values } => ArraySeq::Bool { values: values@ },
            ArrayDesc::Utf8 { values, large } => ArraySeq::Utf8 {
                values: opt_texts_view(values@),
                large,
            },
            ArrayDesc::Dictionary { keys, values } => ArraySeq::Dictionary {
                keys: keys@,
                values: crate::dict_values::chars_view(values@),
            },
            ArrayDesc::Binary { values, large } => ArraySeq::Binary {
                values: opt_bytes_view(values@),
                large,
            },
            ArrayDesc::Blob { refs } => ArraySeq::Blob { refs: opt_bytes_view(refs@) },
            ArrayDesc::FixedList { data, dim } => ArraySeq::FixedList { data: data@, dim },
            ArrayDesc::Float16List { data, dim } => ArraySeq::Float16List { data: data@, dim },
            ArrayDesc::Vectors { data, dim, codec, width, valid } => ArraySeq::Vectors {
                data: data@,
                dim,
                codec,
                width: width as int,
                valid: valid_view(valid),
            },
            ArrayDesc::Null { rows } => ArraySeq::Null { rows: rows as int },
        }
    }
}

/// Whether some entry is missing.
pub open spec fn any_null(nulls: Seq<bool>) -> bool {
    exists|i: int| 0 <= i < nulls.len() && #[trigger] nulls[i]
}

/// Which of `n` entries are there: `None` where none is missing. A failure where an entry beyond
/// the bitmap of `n` entries is missing.
pub open spec fn validity(nulls: Seq<bool>, n: int) -> Result<Option<Seq<bool>>, ScanError> {
    if !any_null(nulls) {
        Ok(None)
    } else if exists|i: int| 0 <= i < nulls.len() && #[trigger] nulls[i] && i / 8 >= bitmap_len(n) {
        Err(ScanError::Corrupt)
    } else {
        Ok(Some(Seq::new(n as nat, |i: int| !(i < nulls.len() && nulls[i]))))
    }
}

fn get_validity(nulls: &Vec<bool>, n: usize) -> (r: Result<Option<Vec<bool>>, ScanError>)
    ensures
        match r {
            Err(e) => validity(nulls@, n as int) == Err::<Option<Seq<bool>>, ScanError>(e),
            Ok(v) => validity(nulls@, n as int) == Ok::<Option<Seq<bool>>, ScanError>(
                valid_view(v),
            ),
        },
{
    let mut any: bool = false;
    let mut far: bool = false;
    let bm: u128 = (n as u128 + 7) / 8;
    let mut i: usize = 0;
    while i < nulls.len()
        invariant
            i <= nulls@.len(),
            bm == bitmap_len(n as int),
            any == exists|k: int| 0 <= k < i && #[trigger] nulls@[k],
            far == exists|k: int| 0 <= k < i && #[trigger] nulls@[k] && k / 8 >= bitmap_len(
                n as int,
            ),
        decreases nulls@.len() - i,
    {
        if nulls[i] {
            assert(nulls@[i as int]);
            any = true;
            if (i / 8) as u128 >= bm {
                far = true;
            }
        }
        i = i + 1;
    }
    if !any {
        return Ok(None);
    }
    if far {
        return Err(ScanError::Corrupt);
    }
    let mut out: Vec<bool> = Vec::with_capacity(n);
    let mut k: usize = 0;
    while k < n
        invariant
            k <= n,
            out@ =~= Seq::new(k as nat, |i: int| !(i < nulls@.len() && nulls@[i])),
        decreases n - k,
    {
        out.push(!(k < nulls.len() && nulls[k]));
        k = k + 1;
    }
    Ok(Some(out))
}

/// The low half of a double word, read as a two's complement number.
pub open spec fn low_half(v: int) -> i32 {
    let w = v % 0x1_0000_0000;
    (if w < 0x8000_0000 {
        w
    } else {
        w - 0x1_0000_0000
    }) as i32
}

/// The low halves of double words.
pub open spec fn low_halves(v: Seq<i64>) -> Seq<i32> {
    Seq::new(v.len(), |i: int| low_half(v[i] as int))
}

pub(crate) fn get_low_half(v: i64) -> (r: i32)
    ensures
        r == low_half(v as int),
{
    let w: u64 = crate::model::as_unsigned(v) % 0x1_0000_0000;
    if w < 0x8000_0000 {
        w as i32
    } else {
        (w as i64 - 0x1_0000_0000) as i32
    }
}

fn get_low_halves(v: &Vec<i64>) -> (r: Vec<i32>)
    ensures
        r@ == low_halves(v@),
{
    let mut out: Vec<i32> = Vec::with_capacity(v.len());
    let mut i: usize = 0;
    while i < v.len()
        invariant
            i <= v@.len(),
            out@ =~= low_halves(v@).take(i as int),
        decreases v@.len() - i,
    {
        let h: i32 = get_low_half(v[i]);
        out.push(h);
        i = i + 1;
    }
    assert(low_halves(v@).take(v@.len() as int) =~= low_halves(v@));
    out
}

/// The slices of the first `n` entries, where all of them lie in the data.
pub open spec fn slices_of(offsets: Seq<u64>, data: Seq<u8>, n: int) -> Option<Seq<Seq<u8>>>
    decreases n,
{
    if n <= 0 {
        Some(Seq::empty())
    } else {
        match slices_of(offsets, data, n - 1) {
            None => None,
            Some(before) => if offsets[n - 1] <= offsets[n] <= data.len() {
                Some(before.push(data.subrange(offsets[n - 1] as int, offsets[n] as int)))
            } else {
                None
            },
        }
    }
}

proof fn slices_failed(offsets: Seq<u64>, data: Seq<u8>, j: int, n: int)
    requires
        0 <= j <= n,
        slices_of(offsets, data, j) is None,
    ensures
        slices_of(offsets, data, n) is None,
    decreases n,
{
    if j < n {
        slices_failed(offsets, data, j, n - 1);
    }
}

/// Slices as sequences.
pub open spec fn slices_view(v: Seq<&[u8]>) -> Seq<Seq<u8>> {
    Seq::new(v.len(), |i: int| v[i]@)
}

fn get_slices<'a>(offsets: &Vec<u64>, data: &'a Vec<u8>, n: usize) -> (r: Option<Vec<&'a [u8]>>)
    requires
        n < offsets@.len() || n == 0,
    ensures
        match r {
            None => slices_of(offsets@, data@, n as int) is None,
            Some(v) => slices_of(offsets@, data@, n as int) == Some(slices_view(v@)) && v@.len()
                == n,
        },
{
    let mut out: Vec<&'a [u8]> = Vec::with_capacity(n);
    let mut i: usize = 0;
    assert(slices_view(out@) =~= Seq::empty());
    while i < n
        invariant
            i <= n,
            n < offsets@.len() || n == 0,
            out@.len() == i,
            slices_of(offsets@, data@, i as int) == Some(slices_view(out@)),
        decreases n - i,
    {
        let s: u64 = offsets[i];
        let e: u64 = offsets[i + 1];
        if s > e || e > data.len() as u64 {
            proof {
                slices_failed(offsets@, data@, i + 1, n as int);
            }
            return None;
        }
        let ghost before = slices_view(out@);
        let piece: &'a [u8] = slice_subrange(data.as_slice(), s as usize, e as usize);
        out.push(piece);
        assert(slices_view(out@) =~= before.push(piece@));
        i = i + 1;
    }
    Some(out)
}

/// The texts behind slices: none in place of what is no text.
pub open spec fn texts_or_empty(v: Seq<Seq<u8>>) -> Seq<Option<Seq<char>>> {
    Seq::new(v.len(), |i: int| Some(text_of(v[i])))
}

fn get_texts_or_empty(v: &Vec<&[u8]>) -> (r: Vec<Option<String>>)
    ensures
        opt_texts_view(r@) == texts_or_empty(slices_view(v@)),
{
    let mut out: Vec<Option<String>> = Vec::with_capacity(v.len());
    let mut i: usize = 0;
    while i < v.len()
        invariant
            i <= v@.len(),
            out@.len() == i,
            forall|k: int|
                0 <= k < i ==> text_view(#[trigger] out@[k]) == Some(text_of(v@[k]@)),
        decreases v@.len() - i,
    {
        out.push(Some(text_or_empty(v[i])));
        i = i + 1;
    }
    assert(opt_texts_view(out@) =~= texts_or_empty(slices_view(v@)));
    out
}

/// The distinct ones of texts, in the order in which they come up first.
pub open spec fn distinct_texts(v: Seq<Seq<u8>>) -> Seq<Seq<u8>>
    decreases v.len(),
{
    if v.len() == 0 {
        v
    } else {
        let before = distinct_texts(v.drop_last());
        if before.contains(v.last()) {
            before
        } else {
            before.push(v.last())
        }
    }
}

/// The first place of a text from `i` on.
pub open spec fn place_of(v: Seq<Seq<u8>>, t: Seq<u8>, i: int) -> int
    decreases v.len() - i,
{
    if i >= v.len() || v[i] == t {
        i
    } else {
        place_of(v, t, i + 1)
    }
}

/// Texts by their place among the distinct ones.
pub open spec fn text_keys(v: Seq<Seq<u8>>) -> Seq<u32> {
    Seq::new(v.len(), |i: int| place_of(distinct_texts(v), v[i], 0) as u32)
}

pub proof fn place_found(v: Seq<Seq<u8>>, t: Seq<u8>, i: int, k: int)
    requires
        0 <= i <= k < v.len(),
        v[k] == t,
        forall|j: int| i <= j < k ==> v[j] != t,
    ensures
        place_of(v, t, i) == k,
    decreases k - i,
{
    if i < k {
        assert(v[i] != t);
        place_found(v, t, i + 1, k);
    }
}

pub proof fn distinct_facts(v: Seq<Seq<u8>>)
    ensures
        distinct_texts(v).len() <= v.len(),
        distinct_texts(v).no_duplicates(),
        forall|i: int| 0 <= i < v.len() ==> distinct_texts(v).contains(#[trigger] v[i]),
    decreases v.len(),
{
    if v.len() > 0 {
        let w = v.drop_last();
        distinct_facts(w);
        let d = distinct_texts(w);
        let now = distinct_texts(v);
        assert forall|i: int| 0 <= i < v.len() implies now.contains(#[trigger] v[i]) by {
            if i < w.len() {
                assert(w[i] == v[i]);
                assert(d.contains(w[i]));
                let k = choose|k: int| 0 <= k < d.len() && d[k] == w[i];
                assert(now[k] == v[i]);
            } else if !d.contains(v.last()) {
                assert(now[d.len() as int] == v.last());
            }
        }
    }
}

/// Distinct texts are only added.
proof fn distinct_grows(v: Seq<Seq<u8>>, j: int)
    requires
        0 <= j <= v.len(),
    ensures
        distinct_texts(v.take(j)).len() <= distinct_texts(v).len(),
        forall|k: int|
            0 <= k < distinct_texts(v.take(j)).len() ==> distinct_texts(v.take(j))[k]
                == #[trigger] distinct_texts(v)[k],
    decreases v.len() - j,
{
    if j < v.len() {
        assert(v.take(j + 1).drop_last() =~= v.take(j));
        distinct_grows(v, j + 1);
    } else {
        assert(v.take(j) =~= v);
    }
}

/// Whether an index of texts gives each of them its place.
pub open spec fn indexes(m: Map<Seq<u8>, u32>, v: Seq<Seq<u8>>) -> bool {
    &&& forall|k: int| 0 <= k < v.len() ==> m.dom().contains(#[trigger] v[k]) && m[v[k]] == k
    &&& forall|t: Seq<u8>| #[trigger] m.dom().contains(t) ==> v.contains(t)
}

/// Puts texts behind a dictionary: the keys and the distinct texts. `None` where those are too many
/// to be numbered.
fn encode_texts(v: &Vec<&[u8]>) -> (r: Option<(Vec<u32>, Vec<String>)>)
    ensures
        match r {
            None => distinct_texts(slices_view(v@)).len() > u32::MAX,
            Some((keys, values)) => distinct_texts(slices_view(v@)).len() <= u32::MAX && keys@
                == text_keys(slices_view(v@)) && crate::dict_values::chars_view(values@)
                == crate::dict_values::decoded_texts(distinct_texts(slices_view(v@))),
        },
{
    let ghost all = slices_view(v@);
    let mut index: AHashMap<Vec<u8>, u32> = text_index_new();
    let mut keys: Vec<u32> = Vec::with_capacity(v.len());
    let mut values: Vec<String> = Vec::new();
    let mut i: usize = 0;
    assert(all.take(0) =~= Seq::empty());
    while i < v.len()
        invariant
            i <= v@.len(),
            all == slices_view(v@),
            keys@.len() == i,
            indexes(numbers_of_texts(index), distinct_texts(all.take(i as int))),
            values@.len() == distinct_texts(all.take(i as int)).len(),
            values@.len() <= u32::MAX,
            forall|k: int|
                0 <= k < values@.len() ==> (#[trigger] values@[k])@ == text_of(
                    distinct_texts(all.take(i as int))[k],
                ),
            forall|k: int|
                0 <= k < i ==> (#[trigger] keys@[k]) < values@.len() && distinct_texts(
                    all.take(i as int),
                )[keys@[k] as int] == all[k],
        decreases v@.len() - i,
    {
        let t: &[u8] = v[i];
        let ghost before = distinct_texts(all.take(i as int));
        let ghost m = numbers_of_texts(index);
        proof {
            assert(all.take(i + 1).drop_last() =~= all.take(i as int));
            assert(all.take(i + 1).last() == t@);
            distinct_facts(all.take(i as int));
        }
        match text_index_get(&index, t) {
            Some(k) => {
                proof {
                    assert(before.contains(t@));
                    let q = choose|q: int| 0 <= q < before.len() && before[q] == t@;
                    assert(m[before[q]] == q);
                }
                keys.push(k);
            },
            None => {
                proof {
                    if before.contains(t@) {
                        let q = choose|q: int| 0 <= q < before.len() && before[q] == t@;
                        assert(m.dom().contains(before[q]));
                    }
                }
                if values.len() >= u32::MAX as usize {
                    proof {
                        distinct_grows(all, i + 1);
                    }
                    return None;
                }
                let k: u32 = values.len() as u32;
                text_index_insert(&mut index, t, k);
                values.push(text_or_empty(t));
                keys.push(k);
                proof {
                    let now = before.push(t@);
                    assert(distinct_texts(all.take(i + 1)) == now);
                    let m2 = numbers_of_texts(index);
                    assert forall|q: int| 0 <= q < now.len() implies m2.dom().contains(
                        #[trigger] now[q],
                    ) && m2[now[q]] == q by {
                        if q < before.len() {
                            assert(m.dom().contains(before[q]));
                            assert(before[q] != t@);
                        }
                    }
                    assert forall|x: Seq<u8>| #[trigger] m2.dom().contains(x) implies now.contains(
                        x,
                    ) by {
                        if x == t@ {
                            assert(now[before.len() as int] == x);
                        } else {
                            assert(m.dom().contains(x));
                            let q = choose|q: int| 0 <= q < before.len() && before[q] == x;
                            assert(now[q] == x);
                        }
                    }
                }
            },
        }
        i = i + 1;
    }
    proof {
        assert(all.take(all.len() as int) =~= all);
        distinct_facts(all);
        let d = distinct_texts(all);
        assert forall|k: int| 0 <= k < keys@.len() implies keys@[k] == #[trigger] text_keys(
            all,
        )[k] by {
            let at = keys@[k] as int;
            assert(d[at] == all[k]);
            assert forall|j: int| 0 <= j < at implies d[j] != all[k] by {}
            place_found(d, all[k], 0, at);
        }
        assert(keys@ =~= text_keys(all));
        assert(crate::dict_values::chars_view(values@) =~= crate::dict_values::decoded_texts(d));
    }
    Some((keys, values))
}

/// Every `step`-th of some texts, from place `i` on.
pub open spec fn sampled(v: Seq<Seq<u8>>, step: int, i: int) -> Seq<Seq<u8>>
    decreases
            (if i < v.len() {
                v.len() - i
            } else {
                0
            }),
{
    if i < 0 || i >= v.len() || step <= 0 {
        Seq::empty()
    } else {
        seq![v[i]] + sampled(v, step, i + step)
    }
}

/// Whether a sample of texts has fewer than 1000 different ones. Of more than 1000 texts about that
/// many are sampled.
pub open spec fn few_different(v: Seq<Seq<u8>>) -> bool {
    let step = if v.len() > 1000 {
        v.len() as int / 1000
    } else {
        1
    };
    distinct_texts(sampled(v, step, 0)).len() < 1000
}

/// The distinct texts of a sequence that goes on.
proof fn distinct_joined(a: Seq<Seq<u8>>, b: Seq<Seq<u8>>)
    ensures
        distinct_texts(a + b).len() >= distinct_texts(a).len(),
    decreases b.len(),
{
    if b.len() == 0 {
        assert(a + b =~= a);
    } else {
        assert((a + b).drop_last() =~= a + b.drop_last());
        distinct_joined(a, b.drop_last());
    }
}

fn are_few_different(v: &Vec<&[u8]>) -> (r: bool)
    ensures
        r == few_different(slices_view(v@)),
{
    let ghost all = slices_view(v@);
    let n: usize = v.len();
    let step: usize = if n > 1000 {
        n / 1000
    } else {
        1
    };
    let mut index: AHashMap<Vec<u8>, u32> = text_index_new();
    let mut count: u32 = 0;
    let ghost mut seen: Seq<Seq<u8>> = Seq::empty();
    let mut i: usize = 0;
    while i < n && count < 1000
        invariant
            n == v@.len(),
            all == slices_view(v@),
            0 < step,
            step as int == (if n > 1000 {
                n as int / 1000
            } else {
                1
            }),
            count <= 1000,
            count == distinct_texts(seen).len(),
            indexes(numbers_of_texts(index), distinct_texts(seen)),
            seen + sampled(all, step as int, i as int) == sampled(all, step as int, 0),
        decreases n - i,
    {
        let t: &[u8] = v[i];
        let ghost before = seen;
        let ghost d = distinct_texts(seen);
        let ghost m = numbers_of_texts(index);
        proof {
            distinct_facts(before);
            seen = before.push(t@);
            assert(seen.drop_last() =~= before);
            assert(before + (seq![all[i as int]] + sampled(all, step as int, i + step)) =~= seen
                + sampled(all, step as int, i + step));
        }
        match text_index_get(&index, t) {
            Some(_) => {},
            None => {
                proof {
                    if d.contains(t@) {
                        let q = choose|q: int| 0 <= q < d.len() && d[q] == t@;
                        assert(m.dom().contains(d[q]));
                    }
                }
                text_index_insert(&mut index, t, count);
                count = count + 1;
                proof {
                    let now = d.push(t@);
                    assert(distinct_texts(seen) == now);
                    let m2 = numbers_of_texts(index);
                    assert forall|q: int| 0 <= q < now.len() implies m2.dom().contains(
                        #[trigger] now[q],
                    ) && m2[now[q]] == q by {
                        if q < d.len() {
                            assert(m.dom().contains(d[q]));
                            assert(d[q] != t@);
                        }
                    }
                    assert forall|x: Seq<u8>| #[trigger] m2.dom().contains(x) implies now.contains(
                        x,
                    ) by {
                        if x == t@ {
                            assert(now[d.len() as int] == x);
                        } else {
                            assert(m.dom().contains(x));
                            let q = choose|q: int| 0 <= q < d.len() && d[q] == x;
                            assert(now[q] == x);
                        }
                    }
                }
            },
        }
        if step > n - i {
            proof {
                assert(sampled(all, step as int, i + step) =~= Seq::empty());
                assert(seen + Seq::<Seq<u8>>::empty() =~= seen);
            }
            return count < 1000;
        }
        i = i + step;
    }
    proof {
        if count >= 1000 {
            distinct_joined(seen, sampled(all, step as int, i as int));
        } else {
            assert(sampled(all, step as int, i as int) =~= Seq::empty());
            assert(seen + Seq::<Seq<u8>>::empty() =~= seen);
        }
    }
    count < 1000
}

/// The entries of the first `n` rows: those of the rows without a null mark, where all of them lie
/// in the data.
pub open spec fn entries_of(offsets: Seq<u64>, data: Seq<u8>, nulls: Seq<bool>, n: int) -> Option<
    Seq<Option<Seq<u8>>>,
>
    decreases n,
{
    if n <= 0 {
        Some(Seq::empty())
    } else {
        match entries_of(offsets, data, nulls, n - 1) {
            None => None,
            Some(before) => if n - 1 < nulls.len() && nulls[n - 1] {
                Some(before.push(None))
            } else if offsets[n - 1] <= offsets[n] <= data.len() {
                Some(before.push(Some(data.subrange(offsets[n - 1] as int, offsets[n] as int))))
            } else {
                None
            },
        }
    }
}

proof fn entries_failed(offsets: Seq<u64>, data: Seq<u8>, nulls: Seq<bool>, j: int, n: int)
    requires
        0 <= j <= n,
        entries_of(offsets, data, nulls, j) is None,
    ensures
        entries_of(offsets, data, nulls, n) is None,
    decreases n,
{
    if j < n {
        entries_failed(offsets, data, nulls, j, n - 1);
    }
}

fn get_entries(offsets: &Vec<u64>, data: &Vec<u8>, nulls: &Vec<bool>, n: usize) -> (r: Option<
    Vec<Option<Vec<u8>>>,
>)
    requires
        n < offsets@.len() || n == 0,
    ensures
        match r {
            None => entries_of(offsets@, data@, nulls@, n as int) is None,
            Some(v) => entries_of(offsets@, data@, nulls@, n as int) == Some(opt_bytes_view(v@)),
        },
{
    let mut out: Vec<Option<Vec<u8>>> = Vec::with_capacity(n);
    let mut i: usize = 0;
    assert(opt_bytes_view(out@) =~= Seq::empty());
    while i < n
        invariant
            i <= n,
            n < offsets@.len() || n == 0,
            entries_of(offsets@, data@, nulls@, i as int) == Some(opt_bytes_view(out@)),
        decreases n - i,
    {
        let ghost before = opt_bytes_view(out@);
        if i < nulls.len() && nulls[i] {
            out.push(None);
            assert(opt_bytes_view(out@) =~= before.push(None));
        } else {
            let s: u64 = offsets[i];
            let e: u64 = offsets[i + 1];
            if s > e || e > data.len() as u64 {
                proof {
                    entries_failed(offsets@, data@, nulls@, i + 1, n as int);
                }
                return None;
            }
            let piece: Vec<u8> = slice_to_vec(
                slice_subrange(data.as_slice(), s as usize, e as usize),
            );
            let ghost there = piece@;
            out.push(Some(piece));
            assert(opt_bytes_view(out@) =~= before.push(Some(there)));
        }
        i = i + 1;
    }
    Some(out)
}

/// The text behind an entry; nothing where it is none.
pub open spec fn text_there(e: Option<Seq<u8>>) -> Option<Seq<char>> {
    match e {
        None => None,
        Some(b) => if vstd::utf8::valid_utf8(b) {
            Some(vstd::utf8::decode_utf8(b))
        } else {
            None
        },
    }
}

/// The texts behind entries.
pub open spec fn texts_there(v: Seq<Option<Seq<u8>>>) -> Seq<Option<Seq<char>>> {
    Seq::new(v.len(), |i: int| text_there(v[i]))
}

fn get_texts_there(v: &Vec<Option<Vec<u8>>>) -> (r: Vec<Option<String>>)
    ensures
        opt_texts_view(r@) == texts_there(opt_bytes_view(v@)),
{
    let mut out: Vec<Option<String>> = Vec::with_capacity(v.len());
    let mut i: usize = 0;
    while i < v.len()
        invariant
            i <= v@.len(),
            out@.len() == i,
            forall|k: int|
                0 <= k < i ==> text_view(#[trigger] out@[k]) == text_there(
                    opt_bytes_view(v@)[k],
                ),
        decreases v@.len() - i,
    {
        match &v[i] {
            None => {
                out.push(None);
            },
            Some(b) => {
                match text_from_bytes(b.as_slice()) {
                    None => {
                        out.push(None);
                    },
                    Some(t) => {
                        out.push(Some(t.to_owned()));
                    },
                }
            },
        }
        i = i + 1;
    }
    assert(opt_texts_view(out@) =~= texts_there(opt_bytes_view(v@)));
    out
}

/// Whether `n` bytes are beyond narrow offsets.
pub open spec fn wide_offsets(n: int) -> bool {
    n > i32::MAX
}

/// Whether arrays over `n` bytes take wide offsets.
pub fn requires_large_arrow_offsets(n: usize) -> (r: bool)
    ensures
        r == wide_offsets(n as int),
{
    n as u128 > 0x7fff_ffff
}

/// The bits of the first `n` rows, nothing where a row has a null mark.
pub open spec fn bits_there(data: Seq<u8>, nulls: Seq<bool>, n: int) -> Seq<Option<bool>> {
    Seq::new(
        n as nat,
        |i: int|
            if i < nulls.len() && nulls[i] {
                None
            } else {
                Some(bit(data, i))
            },
    )
}

fn get_bits_there(data: &Vec<u8>, nulls: &Vec<bool>, n: usize) -> (r: Vec<Option<bool>>)
    ensures
        r@ == bits_there(data@, nulls@, n as int),
{
    let mut out: Vec<Option<bool>> = Vec::with_capacity(n);
    let mut i: usize = 0;
    while i < n
        invariant
            i <= n,
            out@.len() == i,
            forall|k: int|
                0 <= k < i ==> #[trigger] out@[k] == bits_there(data@, nulls@, n as int)[k],
        decreases n - i,
    {
        if i < nulls.len() && nulls[i] {
            out.push(None);
        } else {
            out.push(Some(test_bit(data.as_slice(), i)));
        }
        i = i + 1;
    }
    assert(out@ =~= bits_there(data@, nulls@, n as int));
    out
}

/// The array of texts without null marks. A dictionary is made where `dict` allows it, the texts are
/// at least 100 and a sample of them has few different ones.
pub open spec fn text_array(offsets: Seq<u64>, data: Seq<u8>, n: int, dict: bool) -> Result<
    ArraySeq,
    ScanError,
> {
    if offsets.len() == 0 {
        Err(ScanError::Corrupt)
    } else {
        let rows = min2(gaps(offsets), n);
        match slices_of(offsets, data, rows) {
            None => Err(ScanError::Corrupt),
            Some(texts) => {
                let wide = wide_offsets(offsets[rows] as int);
                if dict && rows >= 100 && !wide && few_different(texts) {
                    if distinct_texts(texts).len() > u32::MAX {
                        Err(ScanError::LengthOverflow)
                    } else {
                        Ok(
                            ArraySeq::Dictionary {
                                keys: text_keys(texts),
                                values: crate::dict_values::decoded_texts(distinct_texts(texts)),
                            },
                        )
                    }
                } else {
                    Ok(ArraySeq::Utf8 { values: texts_or_empty(texts), large: wide })
                }
            },
        }
    }
}

/// What an array that was built comes to.
pub open spec fn built(r: Result<ArrayDesc, ScanError>) -> Result<ArraySeq, ScanError> {
    match r {
        Err(e) => Err(e),
        Ok(a) => Ok(a@),
    }
}

fn get_text_array(offsets: &Vec<u64>, data: &Vec<u8>, n: usize, dict: bool) -> (r: Result<
    ArrayDesc,
    ScanError,
>)
    ensures
        built(r) == text_array(offsets@, data@, n as int, dict),
{
    if offsets.len() == 0 {
        return Err(ScanError::Corrupt);
    }
    let count: usize = offsets.len() - 1;
    let rows: usize = if count < n {
        count
    } else {
        n
    };
    let texts: Vec<&[u8]> = match get_slices(offsets, data, rows) {
        None => {
            return Err(ScanError::Corrupt);
        },
        Some(v) => v,
    };
    let wide: bool = offsets[rows] > 0x7fff_ffff;
    if dict && rows >= 100 && !wide {
        if are_few_different(&texts) {
            return match encode_texts(&texts) {
                None => Err(ScanError::LengthOverflow),
                Some((keys, values)) => Ok(ArrayDesc::Dictionary { keys, values }),
            };
        }
    }
    let values: Vec<Option<String>> = get_texts_or_empty(&texts);
    Ok(ArrayDesc::Utf8 { values, large: wide })
}

/// The bytes of the first rows of lists: at most `n` rows of `width` bytes each.
pub open spec fn list_bytes(data: Seq<u8>, width: int, n: int) -> Seq<u8> {
    data.take(min2(list_rows(data.len() as int, width), n) * width)
}

fn get_list_bytes(data: &Vec<u8>, width: usize, n: usize) -> (r: Vec<u8>)
    ensures
        r@ == list_bytes(data@, width as int, n as int),
{
    let have: usize = if width == 0 {
        0
    } else {
        data.len() / width
    };
    let rows: usize = if have < n {
        have
    } else {
        n
    };
    let ghost m = data.len() as int;
    proof {
        assert(0 <= rows * width <= m) by (nonlinear_arith)
            requires
                0 <= rows <= have,
                0 <= width,
                0 <= m,
                have == 0 || (width > 0 && have == m / (width as int)),
        ;
    }
    let len: usize = rows * width;
    let piece: Vec<u8> = slice_to_vec(slice_subrange(data.as_slice(), 0, len));
    assert(piece@ =~= list_bytes(data@, width as int, n as int));
    piece
}

/// The array of a column with `n` rows, of which some have a null mark.
#[verifier::opaque]
pub open spec fn array_of<C: ColumnCodec>(
    c: C,
    kind: ColumnType,
    col: ColumnSeq,
    nulls: Seq<bool>,
    n: int,
    dict: bool,
) -> Result<ArraySeq, ScanError> {
    match validity(nulls, n) {
        Err(e) => Err(e),
        Ok(valid) => match col {
            ColumnSeq::Int64(values) => if kind == ColumnType::Timestamp {
                Ok(ArraySeq::Timestamp { values, valid })
            } else if kind == ColumnType::Date {
                Ok(ArraySeq::Date { values: low_halves(values), valid })
            } else {
                Ok(ArraySeq::Int64 { values, valid })
            },
            ColumnSeq::Float64(values) => Ok(ArraySeq::Float64 { values, valid }),
            ColumnSeq::String { offsets, data } => if valid is Some {
                match entries_of(offsets, data, nulls, min2(gaps(offsets), n)) {
                    None => Err(ScanError::Corrupt),
                    Some(v) => Ok(
                        ArraySeq::Utf8 {
                            values: texts_there(v),
                            large: wide_offsets(data.len() as int),
                        },
                    ),
                }
            } else {
                text_array(offsets, data, n, dict)
            },
            ColumnSeq::Bool { data, len } => Ok(
                ArraySeq::Bool { values: bits_there(data, nulls, min2(len as int, n)) },
            ),
            ColumnSeq::Binary { offsets, data } => match entries_of(
                offsets,
                data,
                nulls,
                min2(gaps(offsets), n),
            ) {
                None => Err(ScanError::Corrupt),
                Some(v) => Ok(
                    if kind == ColumnType::Blob {
                        ArraySeq::Blob { refs: v }
                    } else {
                        ArraySeq::Binary { values: v, large: wide_offsets(data.len() as int) }
                    },
                ),
            },
            ColumnSeq::FixedList { data, dim } => Ok(
                ArraySeq::FixedList { data: list_bytes(data, dim * 4, n), dim },
            ),
            ColumnSeq::Float16List { data, dim } => Ok(
                ArraySeq::Float16List { data: list_bytes(data, dim * 2, n), dim },
            ),
            ColumnSeq::QuantizedList { data, dim, codec } => match c.width(codec, dim as nat) {
                None => Err(ScanError::Codec),
                Some(width) => Ok(
                    ArraySeq::Vectors {
                        data: list_bytes(data, width as int, n),
                        dim,
                        codec,
                        width: width as int,
                        valid,
                    },
                ),
            },
            ColumnSeq::StringDict { .. } => Ok(ArraySeq::Null { rows: n }),
        },
    }
}

/// Builds the array of a column with `n` rows, of which some have a null mark. Texts may be put
/// behind a dictionary where `dict` says so.
#[verifier::rlimit(40)]
pub fn convert_column<C: ColumnCodec>(
    c: &C,
    kind: ColumnType,
    col: &ColumnData,
    nulls: &Vec<bool>,
    n: usize,
    dict: bool,
) -> (r: Result<ArrayDesc, ScanError>)
    ensures
        built(r) == array_of(*c, kind, col@, nulls@, n as int, dict),
{
    proof {
        reveal(array_of);
    }
    let valid: Option<Vec<bool>> = match get_validity(nulls, n) {
        Err(e) => {
            return Err(e);
        },
        Ok(v) => v,
    };
    match col {
        ColumnData::Int64(values) => {
            if kind == ColumnType::Timestamp {
                Ok(ArrayDesc::Timestamp { values: slice_to_vec(values.as_slice()), valid })
            } else if kind == ColumnType::Date {
                Ok(ArrayDesc::Date { values: get_low_halves(values), valid })
            } else {
                Ok(ArrayDesc::Int64 { values: slice_to_vec(values.as_slice()), valid })
            }
        },
        ColumnData::Float64(values) => {
            Ok(ArrayDesc::Float64 { values: copy_reals(values), valid })
        },
        ColumnData::String { offsets, data } => {
            match valid {
                None => get_text_array(offsets, data, n, dict),
                Some(_) => {
                    match get_entries(offsets, data, nulls, first_rows(offsets, n)) {
                        None => Err(ScanError::Corrupt),
                        Some(v) => Ok(
                            ArrayDesc::Utf8 {
                                values: get_texts_there(&v),
                                large: requires_large_arrow_offsets(data.len()),
                            },
                        ),
                    }
                },
            }
        },
        ColumnData::Bool { data, len } => {
            let rows: usize = if *len < n {
                *len
            } else {
                n
            };
            Ok(ArrayDesc::Bool { values: get_bits_there(data, nulls, rows) })
        },
        ColumnData::Binary { offsets, data } => {
            match get_entries(offsets, data, nulls, first_rows(offsets, n)) {
                None => Err(ScanError::Corrupt),
                Some(v) => if kind == ColumnType::Blob {
                    Ok(ArrayDesc::Blob { refs: v })
                } else {
                    Ok(
                        ArrayDesc::Binary {
                            values: v,
                            large: requires_large_arrow_offsets(data.len()),
                        },
                    )
                },
            }
        },
        ColumnData::FixedList { data, dim } => {
            Ok(ArrayDesc::FixedList { data: get_narrow_list(data, *dim, 4, n), dim: *dim })
        },
        ColumnData::Float16List { data, dim } => {
            Ok(ArrayDesc::Float16List { data: get_narrow_list(data, *dim, 2, n), dim: *dim })
        },
        ColumnData::QuantizedList { data, dim, codec } => {
            match c.row_width(*codec, *dim as usize) {
                None => Err(ScanError::Codec),
                Some(width) => Ok(
                    ArrayDesc::Vectors {
                        data: get_list_bytes(data, width, n),
                        dim: *dim,
                        codec: *codec,
                        width,
                        valid,
                    },
                ),
            }
        },
        ColumnData::StringDict { .. } => Ok(ArrayDesc::Null { rows: n }),
    }
}

fn first_rows(offsets: &Vec<u64>, n: usize) -> (r: usize)
    ensures
        r == min2(gaps(offsets@), n as int),
        r < offsets@.len() || r == 0,
{
    let count: usize = if offsets.len() == 0 {
        0
    } else {
        offsets.len() - 1
    };
    if count < n {
        count
    } else {
        n
    }
}

fn copy_reals(v: &Vec<F64>) -> (r: Vec<F64>)
    ensures
        r@ == v@,
{
    let mut out: Vec<F64> = Vec::with_capacity(v.len());
    let mut i: usize = 0;
    while i < v.len()
        invariant
            i <= v@.len(),
            out@ =~= v@.take(i as int),
        decreases v@.len() - i,
    {
        out.push(v[i]);
        i = i + 1;
    }
    assert(v@.take(v@.len() as int) =~= v@);
    out
}

/// The bytes of the first rows of lists of `dim` components, each of which takes `size` bytes.
fn get_narrow_list(data: &Vec<u8>, dim: u32, size: u32, n: usize) -> (r: Vec<u8>)
    requires
        0 < size <= 4,
    ensures
        r@ == list_bytes(data@, dim * size, n as int),
{
    let wide: u64 = {
        assert(dim * size <= 0xffff_ffff * 4) by (nonlinear_arith)
            requires
                0 <= dim <= 0xffff_ffff,
                0 < size <= 4,
        ;
        dim as u64 * size as u64
    };
    if wide > data.len() as u64 {
        proof {
            let m = data@.len() as int;
            let w = wide as int;
            assert(m / w == 0) by (nonlinear_arith)
                requires
                    0 <= m < w,
            ;
            assert(list_bytes(data@, w, n as int) =~= Seq::empty());
        }
        return Vec::new();
    }
    get_list_bytes(data, wide as usize, n)
}

} // verus!
