//! Building columns row by row.

use vstd::prelude::*;
use vstd::slice::slice_subrange;

use crate::bytes::{bit, test_bit};
use crate::codec::ColumnCodec;
use crate::column::{ColumnData, ColumnSeq, VectorCodec};
use crate::double::F64;
use crate::model::{is_float, ColumnType};
use crate::numeric::min2;

verus! {

/// How the vectors of a quantised type are stored.
pub open spec fn codec_of(kind: ColumnType) -> Option<VectorCodec> {
    match kind {
        ColumnType::BFloat16List => Some(VectorCodec::BFloat16),
        ColumnType::Int8Vector => Some(VectorCodec::Int8),
        ColumnType::UInt8Vector => Some(VectorCodec::UInt8),
        ColumnType::Bit1Vector => Some(VectorCodec::Bit1),
        ColumnType::TurboQuant2Vector => Some(VectorCodec::TurboQuant2),
        ColumnType::TurboQuant3Vector => Some(VectorCodec::TurboQuant3),
        ColumnType::TurboQuant4Vector => Some(VectorCodec::TurboQuant4),
        _ => None,
    }
}

impl ColumnType {
    /// How the vectors of a quantised type are stored.
    pub fn vector_codec(self) -> (r: Option<VectorCodec>)
        ensures
            r == codec_of(self),
    {
        match self {
            ColumnType::BFloat16List => Some(VectorCodec::BFloat16),
            ColumnType::Int8Vector => Some(VectorCodec::Int8),
            ColumnType::UInt8Vector => Some(VectorCodec::UInt8),
            ColumnType::Bit1Vector => Some(VectorCodec::Bit1),
            ColumnType::TurboQuant2Vector => Some(VectorCodec::TurboQuant2),
            ColumnType::TurboQuant3Vector => Some(VectorCodec::TurboQuant3),
            ColumnType::TurboQuant4Vector => Some(VectorCodec::TurboQuant4),
            _ => None,
        }
    }
}

/// A column of a type without rows.
pub open spec fn empty_column(kind: ColumnType) -> ColumnSeq {
    if is_float(kind) {
        ColumnSeq::Float64(Seq::empty())
    } else {
        match kind {
            ColumnType::String => ColumnSeq::String { offsets: seq![0u64], data: Seq::empty() },
            ColumnType::StringDict => ColumnSeq::StringDict {
                indices: Seq::empty(),
                dict_offsets: seq![0u64],
                dict_data: Seq::empty(),
            },
            ColumnType::Bool => ColumnSeq::Bool { data: Seq::empty(), len: 0 },
            ColumnType::Binary | ColumnType::Blob => ColumnSeq::Binary {
                offsets: seq![0u64],
                data: Seq::empty(),
            },
            ColumnType::FixedList => ColumnSeq::FixedList { data: Seq::empty(), dim: 0 },
            ColumnType::Float16List => ColumnSeq::Float16List { data: Seq::empty(), dim: 0 },
            _ => match codec_of(kind) {
                Some(codec) => ColumnSeq::QuantizedList { data: Seq::empty(), dim: 0, codec },
                None => ColumnSeq::Int64(Seq::empty()),
            },
        }
    }
}

fn one_zero() -> (r: Vec<u64>)
    ensures
        r@ == seq![0u64],
{
    let mut v: Vec<u64> = Vec::new();
    v.push(0);
    assert(v@ =~= seq![0u64]);
    v
}

/// The string between two offsets, an empty one where they do not fit the data.
pub open spec fn slice_of(offsets: Seq<u64>, data: Seq<u8>, i: int) -> Seq<u8> {
    if offsets[i] <= offsets[i + 1] <= data.len() {
        data.subrange(offsets[i] as int, offsets[i + 1] as int)
    } else {
        Seq::empty()
    }
}

/// The number of strings between offsets.
pub open spec fn gaps(offsets: Seq<u64>) -> int {
    if offsets.len() == 0 {
        0
    } else {
        offsets.len() - 1
    }
}

/// The string of a dictionary with index `k`, an empty one where there is none.
pub open spec fn entry_of(offsets: Seq<u64>, data: Seq<u8>, k: int) -> Seq<u8> {
    if k < 1 || k > offsets.len() {
        Seq::empty()
    } else {
        let s = offsets[k - 1] as int;
        let e = if k < offsets.len() {
            offsets[k] as int
        } else {
            data.len() as int
        };
        if s <= e <= data.len() {
            data.subrange(s, e)
        } else {
            Seq::empty()
        }
    }
}

/// The bytes that one row of a list takes; 0 where that is not known.
pub open spec fn stride<C: ColumnCodec>(c: C, col: ColumnSeq) -> int {
    match col {
        ColumnSeq::FixedList { dim, .. } => dim * 4,
        ColumnSeq::Float16List { dim, .. } => dim * 2,
        ColumnSeq::QuantizedList { dim, codec, .. } => match c.width(codec, dim as nat) {
            None => 0,
            Some(n) => n as int,
        },
        _ => 0,
    }
}

/// The rows that `len` bytes of lists of `n` bytes each are.
pub open spec fn list_rows(len: int, n: int) -> int {
    if n <= 0 {
        0
    } else {
        len / n
    }
}

/// The number of rows of a column.
pub open spec fn rows_of_column<C: ColumnCodec>(c: C, col: ColumnSeq) -> int {
    match col {
        ColumnSeq::Int64(v) => v.len() as int,
        ColumnSeq::Float64(v) => v.len() as int,
        ColumnSeq::String { offsets, .. } => gaps(offsets),
        ColumnSeq::StringDict { indices, .. } => indices.len() as int,
        ColumnSeq::Bool { len, .. } => len as int,
        ColumnSeq::Binary { offsets, .. } => gaps(offsets),
        ColumnSeq::FixedList { data, .. } => list_rows(data.len() as int, stride(c, col)),
        ColumnSeq::Float16List { data, .. } => list_rows(data.len() as int, stride(c, col)),
        ColumnSeq::QuantizedList { data, .. } => list_rows(data.len() as int, stride(c, col)),
    }
}

/// Bytes with one more bit.
pub open spec fn with_bit(data: Seq<u8>, len: int, b: bool) -> Seq<u8> {
    let k = len / 8;
    let mask = 1u8 << ((len % 8) as u8);
    if k >= data.len() {
        data.push(
            if b {
                mask
            } else {
                0
            },
        )
    } else if b {
        data.update(k, data[k] | mask)
    } else {
        data
    }
}

/// The bytes of row `i` of a list.
pub open spec fn list_row(data: Seq<u8>, n: int, i: int) -> Seq<u8> {
    data.subrange(i * n, (i + 1) * n)
}

/// A column with row `i` of another column added; columns of another kind add nothing.
pub open spec fn with_row<C: ColumnCodec>(c: C, acc: ColumnSeq, col: ColumnSeq, i: int) -> ColumnSeq {
    match (acc, col) {
        (ColumnSeq::Int64(a), ColumnSeq::Int64(v)) => ColumnSeq::Int64(a.push(v[i])),
        (ColumnSeq::Float64(a), ColumnSeq::Float64(v)) => ColumnSeq::Float64(a.push(v[i])),
        (
            ColumnSeq::String { offsets: o, data: d },
            ColumnSeq::String { offsets, data },
        ) => with_text(o, d, slice_of(offsets, data, i)),
        (
            ColumnSeq::String { offsets: o, data: d },
            ColumnSeq::StringDict { indices, dict_offsets, dict_data },
        ) => with_text(o, d, entry_of(dict_offsets, dict_data, indices[i] as int)),
        (
            ColumnSeq::StringDict { indices: a, dict_offsets, dict_data },
            ColumnSeq::StringDict { indices, .. },
        ) => ColumnSeq::StringDict { indices: a.push(indices[i]), dict_offsets, dict_data },
        (
            ColumnSeq::Bool { data: d, len: n },
            ColumnSeq::Bool { data, len: _ },
        ) => with_truth(d, n, bit(data, i)),
        (
            ColumnSeq::Binary { offsets: o, data: d },
            ColumnSeq::Binary { offsets, data },
        ) => {
            let v = slice_of(offsets, data, i);
            ColumnSeq::Binary { offsets: o.push((d.len() + v.len()) as u64), data: d + v }
        },
        (
            ColumnSeq::FixedList { data: d, dim: n },
            ColumnSeq::FixedList { data, dim },
        ) => if n == dim {
            ColumnSeq::FixedList { data: d + list_row(data, stride(c, col), i), dim }
        } else {
            acc
        },
        (
            ColumnSeq::Float16List { data: d, dim: n },
            ColumnSeq::Float16List { data, dim },
        ) => if n == dim {
            ColumnSeq::Float16List { data: d + list_row(data, stride(c, col), i), dim }
        } else {
            acc
        },
        (
            ColumnSeq::QuantizedList { data: d, dim: n, codec: k },
            ColumnSeq::QuantizedList { data, dim, codec },
        ) => if n == dim && k == codec {
            ColumnSeq::QuantizedList { data: d + list_row(data, stride(c, col), i), dim, codec }
        } else {
            acc
        },
        _ => acc,
    }
}

/// A string column with one more string.
pub open spec fn with_text(offsets: Seq<u64>, data: Seq<u8>, v: Seq<u8>) -> ColumnSeq {
    ColumnSeq::String { offsets: offsets.push((data.len() + v.len()) as u64), data: data + v }
}

/// A column of truth values with one more.
pub open spec fn with_truth(data: Seq<u8>, len: usize, b: bool) -> ColumnSeq {
    if len == usize::MAX {
        ColumnSeq::Bool { data, len }
    } else {
        ColumnSeq::Bool { data: with_bit(data, len as int, b), len: (len + 1) as usize }
    }
}

/// A column with one more row that holds nothing: zero, an empty string, false.
pub open spec fn with_blank<C: ColumnCodec>(c: C, acc: ColumnSeq) -> ColumnSeq {
    match acc {
        ColumnSeq::Int64(a) => ColumnSeq::Int64(a.push(0)),
        ColumnSeq::Float64(a) => ColumnSeq::Float64(a.push(F64 { bits: 0 })),
        ColumnSeq::String { offsets, data } => with_text(offsets, data, Seq::empty()),
        ColumnSeq::StringDict { indices, dict_offsets, dict_data } => ColumnSeq::StringDict {
            indices: indices.push(0),
            dict_offsets,
            dict_data,
        },
        ColumnSeq::Bool { data, len } => with_truth(data, len, false),
        ColumnSeq::Binary { offsets, data } => ColumnSeq::Binary {
            offsets: offsets.push(data.len() as u64),
            data,
        },
        ColumnSeq::FixedList { data, dim } => ColumnSeq::FixedList {
            data: data + zeros(stride(c, acc)),
            dim,
        },
        ColumnSeq::Float16List { data, dim } => ColumnSeq::Float16List {
            data: data + zeros(stride(c, acc)),
            dim,
        },
        ColumnSeq::QuantizedList { data, dim, codec } => ColumnSeq::QuantizedList {
            data: data + zeros(stride(c, acc)),
            dim,
            codec,
        },
    }
}

/// `n` zero bytes.
pub open spec fn zeros(n: int) -> Seq<u8> {
    Seq::new(n as nat, |i: int| 0u8)
}

/// A column of the kind of another one, without rows.
pub open spec fn blank_like(col: ColumnSeq) -> ColumnSeq {
    match col {
        ColumnSeq::Int64(_) => ColumnSeq::Int64(Seq::empty()),
        ColumnSeq::Float64(_) => ColumnSeq::Float64(Seq::empty()),
        ColumnSeq::String { .. } => ColumnSeq::String { offsets: seq![0u64], data: Seq::empty() },
        ColumnSeq::StringDict { dict_offsets, dict_data, .. } => ColumnSeq::StringDict {
            indices: Seq::empty(),
            dict_offsets,
            dict_data,
        },
        ColumnSeq::Bool { .. } => ColumnSeq::Bool { data: Seq::empty(), len: 0 },
        ColumnSeq::Binary { .. } => ColumnSeq::Binary { offsets: seq![0u64], data: Seq::empty() },
        ColumnSeq::FixedList { dim, .. } => ColumnSeq::FixedList { data: Seq::empty(), dim },
        ColumnSeq::Float16List { dim, .. } => ColumnSeq::Float16List { data: Seq::empty(), dim },
        ColumnSeq::QuantizedList { dim, codec, .. } => ColumnSeq::QuantizedList {
            data: Seq::empty(),
            dim,
            codec,
        },
    }
}

/// A column with the rows `a..b` of another one added.
pub open spec fn with_rows<C: ColumnCodec>(
    c: C,
    acc: ColumnSeq,
    col: ColumnSeq,
    a: int,
    b: int,
) -> ColumnSeq
    decreases b - a,
{
    if a >= b {
        acc
    } else {
        with_row(c, with_rows(c, acc, col, a, b - 1), col, b - 1)
    }
}

/// A column with the rows at some places of another one added; places beyond it add nothing.
pub open spec fn with_picked<C: ColumnCodec>(
    c: C,
    acc: ColumnSeq,
    col: ColumnSeq,
    places: Seq<usize>,
) -> ColumnSeq
    decreases places.len(),
{
    if places.len() == 0 {
        acc
    } else {
        let before = with_picked(c, acc, col, places.drop_last());
        if places.last() < rows_of_column(c, col) {
            with_row(c, before, col, places.last() as int)
        } else {
            before
        }
    }
}

/// A column with `n` more rows that hold nothing.
pub open spec fn with_blanks<C: ColumnCodec>(c: C, acc: ColumnSeq, n: int) -> ColumnSeq
    decreases n,
{
    if n <= 0 {
        acc
    } else {
        with_blank(c, with_blanks(c, acc, n - 1))
    }
}

/// A column of `n` rows that hold nothing.
pub open spec fn default_column<C: ColumnCodec>(c: C, kind: ColumnType, n: int) -> ColumnSeq {
    with_blanks(c, empty_column(kind), n)
}

/// The rows `a..b` of a column, as far as it has them.
pub open spec fn sliced<C: ColumnCodec>(c: C, col: ColumnSeq, a: int, b: int) -> ColumnSeq {
    let n = rows_of_column(c, col);
    with_rows(c, blank_like(col), col, min2(a, n), min2(b, n))
}

/// The rows of a column at some places.
pub open spec fn picked<C: ColumnCodec>(c: C, col: ColumnSeq, places: Seq<usize>) -> ColumnSeq {
    with_picked(c, blank_like(col), col, places)
}

/// A dictionary column as strings; another column as it is.
pub open spec fn spelled<C: ColumnCodec>(c: C, col: ColumnSeq) -> ColumnSeq {
    match col {
        ColumnSeq::StringDict { indices, .. } => with_rows(
            c,
            empty_column(ColumnType::String),
            col,
            0,
            indices.len() as int,
        ),
        _ => col,
    }
}

/// A list without rows takes on the shape of the lists that are added to it.
pub open spec fn shaped(acc: ColumnSeq, col: ColumnSeq) -> ColumnSeq {
    match (acc, col) {
        (
            ColumnSeq::FixedList { data, dim: _ },
            ColumnSeq::FixedList { data: _, dim },
        ) => if data.len() == 0 {
            ColumnSeq::FixedList { data, dim }
        } else {
            acc
        },
        (
            ColumnSeq::Float16List { data, dim: _ },
            ColumnSeq::Float16List { data: _, dim },
        ) => if data.len() == 0 {
            ColumnSeq::Float16List { data, dim }
        } else {
            acc
        },
        (
            ColumnSeq::QuantizedList { data, dim: _, codec: _ },
            ColumnSeq::QuantizedList { data: _, dim, codec },
        ) => if data.len() == 0 {
            ColumnSeq::QuantizedList { data, dim, codec }
        } else {
            acc
        },
        _ => acc,
    }
}

/// Two columns one after the other.
pub open spec fn joined<C: ColumnCodec>(c: C, acc: ColumnSeq, col: ColumnSeq) -> ColumnSeq {
    with_rows(c, shaped(acc, col), col, 0, rows_of_column(c, col))
}

/// A column in which the rows with a bit in `nulls` hold nothing.
pub open spec fn without_nulls<C: ColumnCodec>(
    c: C,
    col: ColumnSeq,
    nulls: Seq<u8>,
    n: int,
) -> ColumnSeq
    decreases n,
{
    if n <= 0 {
        blank_like(col)
    } else {
        let before = without_nulls(c, col, nulls, n - 1);
        if bit(nulls, n - 1) {
            with_blank(c, before)
        } else {
            with_row(c, before, col, n - 1)
        }
    }
}

fn get_slice<'a>(offsets: &Vec<u64>, data: &'a Vec<u8>, i: usize) -> (r: &'a [u8])
    requires
        i + 1 < offsets.len(),
    ensures
        r@ == slice_of(offsets@, data@, i as int),
{
    let s: u64 = offsets[i];
    let e: u64 = offsets[i + 1];
    let n: usize = data.len();
    if s <= e && e <= n as u64 {
        slice_subrange(data.as_slice(), s as usize, e as usize)
    } else {
        let r: &'a [u8] = slice_subrange(data.as_slice(), 0, 0);
        assert(r@ =~= Seq::empty());
        r
    }
}

fn get_entry<'a>(offsets: &Vec<u64>, data: &'a Vec<u8>, k: u32) -> (r: &'a [u8])
    ensures
        r@ == entry_of(offsets@, data@, k as int),
{
    let blank: &'a [u8] = slice_subrange(data.as_slice(), 0, 0);
    assert(blank@ =~= Seq::empty());
    if k < 1 || k as u64 > offsets.len() as u64 {
        return blank;
    }
    let at: usize = k as usize;
    let s: u64 = offsets[at - 1];
    let e: u64 = if at < offsets.len() {
        offsets[at]
    } else {
        data.len() as u64
    };
    let n: usize = data.len();
    if s <= e && e <= n as u64 {
        slice_subrange(data.as_slice(), s as usize, e as usize)
    } else {
        blank
    }
}

pub(crate) fn add_bytes(data: &mut Vec<u8>, v: &[u8])
    ensures
        final(data)@ == old(data)@ + v@,
{
    let mut i: usize = 0;
    while i < v.len()
        invariant
            i <= v.len(),
            data@ =~= old(data)@ + v@.take(i as int),
        decreases v.len() - i,
    {
        data.push(v[i]);
        i = i + 1;
    }
    assert(v@.take(v@.len() as int) =~= v@);
}

pub(crate) fn add_text(offsets: &mut Vec<u64>, data: &mut Vec<u8>, v: &[u8])
    ensures
        final(offsets)@ == old(offsets)@.push((old(data)@.len() + v@.len()) as u64),
        final(data)@ == old(data)@ + v@,
{
    add_bytes(data, v);
    offsets.push(data.len() as u64);
}

pub(crate) fn add_bit(data: &mut Vec<u8>, len: usize, b: bool)
    ensures
        final(data)@ == with_bit(old(data)@, len as int, b),
{
    let k: usize = len / 8;
    let mask: u8 = 1u8 << ((len % 8) as u8);
    if k >= data.len() {
        data.push(
            if b {
                mask
            } else {
                0
            },
        );
    } else if b {
        let x: u8 = data[k] | mask;
        data.set(k, x);
    }
}

fn add_zeros(data: &mut Vec<u8>, n: usize)
    ensures
        final(data)@ == old(data)@ + zeros(n as int),
{
    let mut i: usize = 0;
    while i < n
        invariant
            i <= n,
            data@ =~= old(data)@ + zeros(i as int),
        decreases n - i,
    {
        data.push(0);
        i = i + 1;
    }
}

impl ColumnData {
    /// A column of a type without rows.
    pub fn new(kind: ColumnType) -> (r: ColumnData)
        ensures
            r@ == empty_column(kind),
    {
        if kind.is_float() {
            let v: Vec<F64> = Vec::new();
            assert(v@ =~= Seq::empty());
            return ColumnData::Float64(v);
        }
        let data: Vec<u8> = Vec::new();
        assert(data@ =~= Seq::empty());
        match kind {
            ColumnType::String => ColumnData::String { offsets: one_zero(), data },
            ColumnType::StringDict => {
                let indices: Vec<u32> = Vec::new();
                assert(indices@ =~= Seq::empty());
                ColumnData::StringDict { indices, dict_offsets: one_zero(), dict_data: data }
            },
            ColumnType::Bool => ColumnData::Bool { data, len: 0 },
            ColumnType::Binary | ColumnType::Blob => ColumnData::Binary {
                offsets: one_zero(),
                data,
            },
            ColumnType::FixedList => ColumnData::FixedList { data, dim: 0 },
            ColumnType::Float16List => ColumnData::Float16List { data, dim: 0 },
            _ => match kind.vector_codec() {
                Some(codec) => ColumnData::QuantizedList { data, dim: 0, codec },
                None => {
                    let v: Vec<i64> = Vec::new();
                    assert(v@ =~= Seq::empty());
                    ColumnData::Int64(v)
                },
            },
        }
    }

    /// A column of the kind of this one, without rows.
    pub fn blank(&self) -> (r: ColumnData)
        ensures
            r@ == blank_like(self@),
    {
        let none: Vec<u8> = Vec::new();
        assert(none@ =~= Seq::empty());
        match self {
            ColumnData::Int64(_) => {
                let v: Vec<i64> = Vec::new();
                assert(v@ =~= Seq::empty());
                ColumnData::Int64(v)
            },
            ColumnData::Float64(_) => {
                let v: Vec<F64> = Vec::new();
                assert(v@ =~= Seq::empty());
                ColumnData::Float64(v)
            },
            ColumnData::String { .. } => ColumnData::String { offsets: one_zero(), data: none },
            ColumnData::StringDict { indices: _, dict_offsets, dict_data } => {
                let indices: Vec<u32> = Vec::new();
                assert(indices@ =~= Seq::empty());
                ColumnData::StringDict {
                    indices,
                    dict_offsets: copy_words(dict_offsets),
                    dict_data: vstd::slice::slice_to_vec(dict_data.as_slice()),
                }
            },
            ColumnData::Bool { .. } => ColumnData::Bool { data: none, len: 0 },
            ColumnData::Binary { .. } => ColumnData::Binary { offsets: one_zero(), data: none },
            ColumnData::FixedList { dim, .. } => ColumnData::FixedList { data: none, dim: *dim },
            ColumnData::Float16List { dim, .. } => ColumnData::Float16List {
                data: none,
                dim: *dim,
            },
            ColumnData::QuantizedList { dim, codec, .. } => ColumnData::QuantizedList {
                data: none,
                dim: *dim,
                codec: *codec,
            },
        }
    }

    /// The bytes that one row of a list takes; `None` where they are too many to count.
    fn row_bytes<C: ColumnCodec>(&self, c: &C) -> (r: Option<usize>)
        ensures
            r matches Some(n) ==> n == stride(*c, self@),
            r is None ==> stride(*c, self@) > usize::MAX && (self@ is FixedList
                || self@ is Float16List),
    {
        match self {
            ColumnData::FixedList { dim, .. } => {
                let n: u64 = *dim as u64 * 4;
                if n > usize::MAX as u64 {
                    None
                } else {
                    Some(n as usize)
                }
            },
            ColumnData::Float16List { dim, .. } => {
                let n: u64 = *dim as u64 * 2;
                if n > usize::MAX as u64 {
                    None
                } else {
                    Some(n as usize)
                }
            },
            ColumnData::QuantizedList { dim, codec, .. } => match c.row_width(
                *codec,
                *dim as usize,
            ) {
                None => Some(0),
                Some(n) => Some(n),
            },
            _ => Some(0),
        }
    }

    /// The number of rows.
    pub fn len<C: ColumnCodec>(&self, c: &C) -> (r: usize)
        ensures
            r == rows_of_column(*c, self@),
    {
        match self {
            ColumnData::Int64(v) => v.len(),
            ColumnData::Float64(v) => v.len(),
            ColumnData::String { offsets, .. } => if offsets.len() == 0 {
                0
            } else {
                offsets.len() - 1
            },
            ColumnData::StringDict { indices, .. } => indices.len(),
            ColumnData::Bool { len, .. } => *len,
            ColumnData::Binary { offsets, .. } => if offsets.len() == 0 {
                0
            } else {
                offsets.len() - 1
            },
            ColumnData::FixedList { data, .. } => count_lists(data, self.row_bytes(c)),
            ColumnData::Float16List { data, .. } => count_lists(data, self.row_bytes(c)),
            ColumnData::QuantizedList { data, .. } => count_lists(data, self.row_bytes(c)),
        }
    }
}

fn copy_words(v: &Vec<u64>) -> (r: Vec<u64>)
    ensures
        r@ == v@,
{
    let mut out: Vec<u64> = Vec::with_capacity(v.len());
    let mut i: usize = 0;
    while i < v.len()
        invariant
            i <= v@.len(),
            out@ =~= v@.take(i as int),
        decreases v@.len() - i,
    {
        out.push(v[i]);
        i = i + 1;
    }
    assert(v@.take(v@.len() as int) =~= v@);
    out
}

fn count_lists(data: &Vec<u8>, width: Option<usize>) -> (r: usize)
    ensures
        width matches Some(n) ==> r == list_rows(data@.len() as int, n as int),
        width is None ==> forall|n: int|
            n > usize::MAX ==> r == #[trigger] list_rows(data@.len() as int, n),
{
    match width {
        None => {
            let len: usize = data.len();
            proof {
                assert forall|n: int| n > usize::MAX implies #[trigger] list_rows(
                    data@.len() as int,
                    n,
                ) == 0 by {
                    let m = len as int;
                    assert(m / n == 0) by (nonlinear_arith)
                        requires
                            0 <= m < n,
                    ;
                }
            }
            0
        },
        Some(n) => if n == 0 {
            0
        } else {
            data.len() / n
        },
    }
}

/// Lists that are wider than the data have no rows in it.
proof fn too_wide(len: int, n: int)
    requires
        0 <= len,
    ensures
        n > len ==> list_rows(len, n) == 0,
{
    if n > len {
        assert(len / n == 0) by (nonlinear_arith)
            requires
                0 <= len < n,
        ;
    }
}

/// The bytes of row `i` of lists of `n` bytes each.
fn get_list_row(data: &Vec<u8>, n: usize, i: usize) -> (r: &[u8])
    requires
        n > 0,
        i < data@.len() / n as nat,
    ensures
        r@ == list_row(data@, n as int, i as int),
{
    let len: usize = data.len();
    proof {
        let m = len as int;
        let k = n as int;
        let j = i as int;
        assert((j + 1) * k <= m && j * k >= 0 && j * k <= (j + 1) * k) by (nonlinear_arith)
            requires
                k > 0,
                0 <= j < m / k,
        ;
    }
    let a: usize = i * n;
    let b: usize = (i + 1) * n;
    slice_subrange(data.as_slice(), a, b)
}

impl ColumnData {
    /// Adds row `i` of another column.
    pub fn push_row<C: ColumnCodec>(&mut self, c: &C, col: &ColumnData, i: usize)
        requires
            i < rows_of_column(*c, col@),
        ensures
            final(self)@ == with_row(*c, old(self)@, col@, i as int),
    {
        let width: Option<usize> = col.row_bytes(c);
        match self {
            ColumnData::Int64(a) => if let ColumnData::Int64(v) = col {
                a.push(v[i]);
            },
            ColumnData::Float64(a) => if let ColumnData::Float64(v) = col {
                a.push(v[i]);
            },
            ColumnData::String { offsets: o, data: d } => match col {
                ColumnData::String { offsets, data } => {
                    add_text(o, d, get_slice(offsets, data, i));
                },
                ColumnData::StringDict { indices, dict_offsets, dict_data } => {
                    add_text(o, d, get_entry(dict_offsets, dict_data, indices[i]));
                },
                _ => {},
            },
            ColumnData::StringDict { indices: a, .. } => if let ColumnData::StringDict {
                indices,
                ..
            } = col {
                a.push(indices[i]);
            },
            ColumnData::Bool { data: d, len: n } => if let ColumnData::Bool { data, .. } = col {
                if *n < usize::MAX {
                    add_bit(d, *n, test_bit(data.as_slice(), i));
                    *n = *n + 1;
                }
            },
            ColumnData::Binary { offsets: o, data: d } => if let ColumnData::Binary {
                offsets,
                data,
            } = col {
                add_text(o, d, get_slice(offsets, data, i));
            },
            ColumnData::FixedList { data: d, dim: n } => if let ColumnData::FixedList {
                data,
                dim,
            } = col {
                let len: usize = data.len();
                proof {
                    too_wide(len as int, stride(*c, col@));
                }
                if *n == *dim {
                    if let Some(w) = width {
                        add_bytes(d, get_list_row(data, w, i));
                    }
                }
            },
            ColumnData::Float16List { data: d, dim: n } => if let ColumnData::Float16List {
                data,
                dim,
            } = col {
                let len: usize = data.len();
                proof {
                    too_wide(len as int, stride(*c, col@));
                }
                if *n == *dim {
                    if let Some(w) = width {
                        add_bytes(d, get_list_row(data, w, i));
                    }
                }
            },
            ColumnData::QuantizedList { data: d, dim: n, codec: k } => if let
                ColumnData::QuantizedList { data, dim, codec } = col {
                let len: usize = data.len();
                proof {
                    too_wide(len as int, stride(*c, col@));
                }
                if *n == *dim && *k == *codec {
                    if let Some(w) = width {
                        add_bytes(d, get_list_row(data, w, i));
                    }
                }
            },
        }
    }
}

impl ColumnData {
    /// Adds a row that holds nothing. Lists that are too wide to be counted stay as they are.
    pub fn push_blank<C: ColumnCodec>(&mut self, c: &C)
        ensures
            stride(*c, old(self)@) <= usize::MAX ==> final(self)@ == with_blank(*c, old(self)@),
            stride(*c, old(self)@) > usize::MAX ==> final(self)@ == old(self)@,
    {
        let width: Option<usize> = self.row_bytes(c);
        match self {
            ColumnData::Int64(a) => {
                a.push(0);
            },
            ColumnData::Float64(a) => {
                a.push(F64::from_bits(0));
            },
            ColumnData::String { offsets, data } => {
                offsets.push(data.len() as u64);
                assert(data@ + Seq::<u8>::empty() =~= data@);
            },
            ColumnData::StringDict { indices, .. } => {
                indices.push(0);
            },
            ColumnData::Bool { data, len } => {
                if *len < usize::MAX {
                    add_bit(data, *len, false);
                    *len = *len + 1;
                }
            },
            ColumnData::Binary { offsets, data } => {
                offsets.push(data.len() as u64);
            },
            ColumnData::FixedList { data, .. } => {
                if let Some(n) = width {
                    add_zeros(data, n);
                }
            },
            ColumnData::Float16List { data, .. } => {
                if let Some(n) = width {
                    add_zeros(data, n);
                }
            },
            ColumnData::QuantizedList { data, .. } => {
                if let Some(n) = width {
                    add_zeros(data, n);
                }
            },
        }
    }

    /// Adds the rows `a..b` of another column.
    pub fn push_rows<C: ColumnCodec>(&mut self, c: &C, col: &ColumnData, a: usize, b: usize)
        requires
            b <= rows_of_column(*c, col@),
        ensures
            final(self)@ == with_rows(*c, old(self)@, col@, a as int, b as int),
    {
        let mut i: usize = a;
        while i < b
            invariant
                a <= b ==> a <= i <= b,
                a > b ==> i == a,
                b <= rows_of_column(*c, col@),
                self@ == with_rows(*c, old(self)@, col@, a as int, i as int),
            decreases b - i,
        {
            self.push_row(c, col, i);
            i = i + 1;
        }
    }

    /// The rows `a..b`, as far as there are any.
    pub fn slice_range<C: ColumnCodec>(&self, c: &C, a: usize, b: usize) -> (r: ColumnData)
        ensures
            r@ == sliced(*c, self@, a as int, b as int),
    {
        let n: usize = self.len(c);
        let from: usize = if a < n {
            a
        } else {
            n
        };
        let to: usize = if b < n {
            b
        } else {
            n
        };
        let mut out: ColumnData = self.blank();
        out.push_rows(c, self, from, to);
        out
    }

    /// The rows at some places, as far as there are any.
    pub fn filter_by_indices<C: ColumnCodec>(&self, c: &C, places: &[usize]) -> (r: ColumnData)
        ensures
            r@ == picked(*c, self@, places@),
    {
        let n: usize = self.len(c);
        let mut out: ColumnData = self.blank();
        let ghost start = out@;
        let mut i: usize = 0;
        assert(places@.take(0) =~= Seq::empty());
        while i < places.len()
            invariant
                i <= places.len(),
                n == rows_of_column(*c, self@),
                start == blank_like(self@),
                out@ == with_picked(*c, start, self@, places@.take(i as int)),
            decreases places.len() - i,
        {
            proof {
                assert(places@.take(i + 1).drop_last() =~= places@.take(i as int));
            }
            if places[i] < n {
                out.push_row(c, self, places[i]);
            }
            i = i + 1;
        }
        assert(places@.take(places@.len() as int) =~= places@);
        out
    }

    /// The column as strings, where it is a dictionary column.
    pub fn decode_string_dict<C: ColumnCodec>(self, c: &C) -> (r: ColumnData)
        ensures
            r@ == spelled(*c, self@),
    {
        if let ColumnData::StringDict { .. } = &self {
            let n: usize = self.len(c);
            let mut out: ColumnData = ColumnData::new(ColumnType::String);
            out.push_rows(c, &self, 0, n);
            out
        } else {
            self
        }
    }

    /// Takes on the shape of lists that are about to be added.
    fn reshape(&mut self, col: &ColumnData)
        ensures
            final(self)@ == shaped(old(self)@, col@),
    {
        match self {
            ColumnData::FixedList { data, dim } => if let ColumnData::FixedList {
                data: _,
                dim: d,
            } = col {
                if data.len() == 0 {
                    *dim = *d;
                }
            },
            ColumnData::Float16List { data, dim } => if let ColumnData::Float16List {
                data: _,
                dim: d,
            } = col {
                if data.len() == 0 {
                    *dim = *d;
                }
            },
            ColumnData::QuantizedList { data, dim, codec } => if let ColumnData::QuantizedList {
                data: _,
                dim: d,
                codec: k,
            } = col {
                if data.len() == 0 {
                    *dim = *d;
                    *codec = *k;
                }
            },
            _ => {},
        }
    }

    /// Adds the rows of another column.
    pub fn append<C: ColumnCodec>(&mut self, c: &C, col: &ColumnData)
        ensures
            final(self)@ == joined(*c, old(self)@, col@),
    {
        let n: usize = col.len(c);
        self.reshape(col);
        self.push_rows(c, col, 0, n);
    }

    /// The column with nothing in the rows that have a bit in `nulls`.
    pub fn apply_null_bitmap<C: ColumnCodec>(&self, c: &C, nulls: &[u8]) -> (r: ColumnData)
        ensures
            r@ == without_nulls(*c, self@, nulls@, rows_of_column(*c, self@)),
    {
        let n: usize = self.len(c);
        let bytes: usize = match self {
            ColumnData::FixedList { data, .. } => data.len(),
            ColumnData::Float16List { data, .. } => data.len(),
            ColumnData::QuantizedList { data, .. } => data.len(),
            _ => 0,
        };
        let width: Option<usize> = self.row_bytes(c);
        proof {
            too_wide(bytes as int, stride(*c, self@));
        }
        let mut out: ColumnData = self.blank();
        let mut i: usize = 0;
        while i < n
            invariant
                i <= n,
                n == rows_of_column(*c, self@),
                n > 0 ==> stride(*c, self@) <= usize::MAX,
                stride(*c, out@) == stride(*c, self@),
                out@ == without_nulls(*c, self@, nulls@, i as int),
            decreases n - i,
        {
            if test_bit(nulls, i) {
                out.push_blank(c);
            } else {
                out.push_row(c, self, i);
            }
            i = i + 1;
        }
        out
    }
}

/// A column of `n` rows that hold nothing.
pub fn create_default_column<C: ColumnCodec>(c: &C, kind: ColumnType, n: usize) -> (r: ColumnData)
    ensures
        r@ == default_column(*c, kind, n as int),
{
    let mut out: ColumnData = ColumnData::new(kind);
    let width: Option<usize> = out.row_bytes(c);
    assert(stride(*c, empty_column(kind)) <= usize::MAX);
    let mut i: usize = 0;
    while i < n
        invariant
            i <= n,
            stride(*c, empty_column(kind)) <= usize::MAX,
            stride(*c, out@) == stride(*c, empty_column(kind)),
            out@ == default_column(*c, kind, i as int),
        decreases n - i,
    {
        out.push_blank(c);
        i = i + 1;
    }
    out
}

} // verus!
