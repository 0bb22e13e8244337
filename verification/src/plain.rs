//! A codec for plain and bit-packed columns without compression.

use vstd::prelude::*;
use vstd::slice::{slice_subrange, slice_to_vec};

use crate::bytes::{
    bitmap_len, bitpack_value_at, bytes_as_i64_slice, bytes_as_u32_slice, i64_le, packed_value,
    read_i64, read_u64, u64_le,
};
use crate::cells::ListForm;
use crate::codec::ColumnCodec;
use crate::column::{bytes_view, ColumnData, ColumnSeq, DictSeq, StringDictView, VectorCodec};
use crate::dict_text::{dict_text, read_dict_text};
use crate::double::F64;
use crate::group::{get_tail, tail};
use crate::model::{
    is_float, is_int, ColumnType, COL_ENCODING_BITPACK, COL_ENCODING_PLAIN,
};
use crate::numeric::{bytes_as_f64_slice, min2};
use crate::reads::{get_offset_words, index_words, int_words, offset_words, real_words};

verus! {

/// Reads plain and bit-packed columns without compression.
pub struct PlainCodec {}

/// The integers of a plain column, with the bytes that it takes.
pub open spec fn plain_ints(p: Seq<u8>) -> Option<(ColumnSeq, nat)> {
    if p.len() < 8 || 8 + u64_le(p, 0) * 8 > p.len() {
        None
    } else {
        Some((ColumnSeq::Int64(int_words(tail(p, 8), u64_le(p, 0) as int)), 8 + u64_le(p, 0) * 8))
    }
}

/// The doubles of a plain column, with the bytes that it takes.
pub open spec fn plain_reals(p: Seq<u8>) -> Option<(ColumnSeq, nat)> {
    if p.len() < 8 || 8 + u64_le(p, 0) * 8 > p.len() {
        None
    } else {
        Some(
            (ColumnSeq::Float64(real_words(tail(p, 8), u64_le(p, 0) as int)), 8 + u64_le(p, 0) * 8),
        )
    }
}

/// The strings of a plain column, with the bytes that it takes.
pub open spec fn plain_strings(p: Seq<u8>, binary: bool) -> Option<(ColumnSeq, nat)> {
    let count = u64_le(p, 0) as int;
    let at = 8 + (count + 1) * 4;
    if p.len() < 8 || at + 8 > p.len() || at + 8 + u64_le(p, at) > p.len() {
        None
    } else {
        let used = at + 8 + u64_le(p, at);
        let offsets = offset_words(tail(p, 8), count + 1);
        let data = p.subrange(at + 8, used);
        Some(
            (
                if binary {
                    ColumnSeq::Binary { offsets, data }
                } else {
                    ColumnSeq::String { offsets, data }
                },
                used as nat,
            ),
        )
    }
}

/// The bits of a plain column, with the bytes that it takes.
pub open spec fn plain_bits(p: Seq<u8>) -> Option<(ColumnSeq, nat)> {
    let len = u64_le(p, 0);
    if p.len() < 8 || 8 + bitmap_len(len as int) > p.len() || len > usize::MAX {
        None
    } else {
        let used = 8 + bitmap_len(len as int);
        Some((ColumnSeq::Bool { data: p.subrange(8, used), len: len as usize }, used as nat))
    }
}

/// The dictionary of a plain column, with the bytes that it takes.
pub open spec fn plain_dict(p: Seq<u8>) -> Option<(ColumnSeq, nat)> {
    match dict_text(p) {
        Ok(Some(d)) => {
            let used = 16 + d.rows * 4 + d.size * 4 + 8 + d.declared;
            if used > p.len() {
                None
            } else {
                Some(
                    (
                        ColumnSeq::StringDict {
                            indices: index_words(d.indices, d.rows),
                            dict_offsets: offset_words(d.offsets, d.size),
                            dict_data: d.raw,
                        },
                        used as nat,
                    ),
                )
            }
        },
        _ => None,
    }
}

/// The first `k` integers of a bit-packed column.
pub open spec fn unpacked(packed: Seq<u8>, width: int, min: int, k: int) -> Option<Seq<i64>>
    decreases k,
{
    if k <= 0 {
        Some(Seq::empty())
    } else {
        match unpacked(packed, width, min, k - 1) {
            None => None,
            Some(before) => match packed_value(packed, width, min, k - 1) {
                None => None,
                Some(v) => Some(before.push(v)),
            },
        }
    }
}

proof fn unpacked_failed(packed: Seq<u8>, width: int, min: int, j: int, k: int)
    requires
        0 <= j <= k,
        unpacked(packed, width, min, j) is None,
    ensures
        unpacked(packed, width, min, k) is None,
    decreases k,
{
    if j < k {
        unpacked_failed(packed, width, min, j, k - 1);
    }
}

/// The integers of a bit-packed column, with the bytes that it takes: a count, the width, the
/// smallest integer, then the fields.
pub open spec fn packed_ints(p: Seq<u8>) -> Option<(ColumnSeq, nat)> {
    let count = u64_le(p, 0);
    if p.len() < 17 || 17 + bitmap_len(count * p[8]) > p.len() || count > usize::MAX {
        None
    } else {
        let used = 17 + bitmap_len(count * p[8]);
        match unpacked(p.subrange(17, used), p[8] as int, i64_le(p, 9), count as int) {
            None => None,
            Some(v) => Some((ColumnSeq::Int64(v), used as nat)),
        }
    }
}

/// A plain column without its tag, with the bytes that it takes.
#[verifier::opaque]
pub open spec fn plain_column(p: Seq<u8>, kind: ColumnType) -> Option<(ColumnSeq, nat)> {
    if is_int(kind) {
        plain_ints(p)
    } else if is_float(kind) {
        plain_reals(p)
    } else {
        match kind {
            ColumnType::String => plain_strings(p, false),
            ColumnType::Binary => plain_strings(p, true),
            ColumnType::Blob => plain_strings(p, true),
            ColumnType::Bool => plain_bits(p),
            ColumnType::StringDict => plain_dict(p),
            _ => None,
        }
    }
}

/// A column behind its tag, with the bytes that both take.
pub open spec fn tagged_column(bytes: Seq<u8>, kind: ColumnType) -> Option<(ColumnSeq, nat)> {
    if bytes.len() == 0 {
        None
    } else {
        let got = if bytes[0] == COL_ENCODING_PLAIN {
            plain_column(tail(bytes, 1), kind)
        } else if bytes[0] == COL_ENCODING_BITPACK && is_int(kind) {
            packed_ints(tail(bytes, 1))
        } else {
            None
        };
        match got {
            None => None,
            Some((col, n)) => Some((col, n + 1)),
        }
    }
}

/// The first `n` rows of a column.
pub open spec fn first_of_column(col: ColumnSeq, n: int) -> ColumnSeq {
    match col {
        ColumnSeq::Int64(v) => ColumnSeq::Int64(v.take(min2(v.len() as int, n))),
        ColumnSeq::Float64(v) => ColumnSeq::Float64(v.take(min2(v.len() as int, n))),
        ColumnSeq::String { offsets, data } => ColumnSeq::String {
            offsets: offsets.take(min2(offsets.len() as int, n + 1)),
            data,
        },
        ColumnSeq::Binary { offsets, data } => ColumnSeq::Binary {
            offsets: offsets.take(min2(offsets.len() as int, n + 1)),
            data,
        },
        ColumnSeq::StringDict { indices, dict_offsets, dict_data } => ColumnSeq::StringDict {
            indices: indices.take(min2(indices.len() as int, n)),
            dict_offsets,
            dict_data,
        },
        ColumnSeq::Bool { data, len } => ColumnSeq::Bool {
            data,
            len: min2(len as int, n) as usize,
        },
        other => other,
    }
}

fn read_plain_ints(p: &[u8]) -> (r: Option<(ColumnData, usize)>)
    ensures
        read_is(r, plain_ints(p@)),
{
    if p.len() < 8 {
        return None;
    }
    let count: u64 = read_u64(p, 0);
    if count > (p.len() as u64 - 8) / 8 {
        return None;
    }
    let n: usize = count as usize;
    Some((ColumnData::Int64(bytes_as_i64_slice(get_tail(p, 8), n)), 8 + n * 8))
}

/// What reading a column comes to.
pub open spec fn read_is(r: Option<(ColumnData, usize)>, want: Option<(ColumnSeq, nat)>) -> bool {
    match r {
        None => want is None,
        Some((col, n)) => want == Some((col@, n as nat)),
    }
}

fn read_plain_reals(p: &[u8]) -> (r: Option<(ColumnData, usize)>)
    ensures
        read_is(r, plain_reals(p@)),
{
    if p.len() < 8 {
        return None;
    }
    let count: u64 = read_u64(p, 0);
    if count > (p.len() as u64 - 8) / 8 {
        return None;
    }
    let n: usize = count as usize;
    Some((ColumnData::Float64(bytes_as_f64_slice(get_tail(p, 8), n)), 8 + n * 8))
}

fn read_plain_strings(p: &[u8], binary: bool) -> (r: Option<(ColumnData, usize)>)
    ensures
        read_is(r, plain_strings(p@, binary)),
{
    if p.len() < 8 {
        return None;
    }
    let count: u64 = read_u64(p, 0);
    let at: u128 = 8 + (count as u128 + 1) * 4;
    if at + 8 > p.len() as u128 {
        return None;
    }
    let from: usize = at as usize;
    let size: u64 = read_u64(p, from);
    if at + 8 + size as u128 > p.len() as u128 {
        return None;
    }
    let used: usize = from + 8 + size as usize;
    let offsets: Vec<u64> = get_offset_words(get_tail(p, 8), count as usize + 1);
    let data: Vec<u8> = slice_to_vec(slice_subrange(p, from + 8, used));
    if binary {
        Some((ColumnData::Binary { offsets, data }, used))
    } else {
        Some((ColumnData::String { offsets, data }, used))
    }
}

fn read_plain_bits(p: &[u8]) -> (r: Option<(ColumnData, usize)>)
    ensures
        read_is(r, plain_bits(p@)),
{
    if p.len() < 8 {
        return None;
    }
    let len: u64 = read_u64(p, 0);
    let used: u128 = 8 + (len as u128 + 7) / 8;
    if used > p.len() as u128 || len as u128 > usize::MAX as u128 {
        return None;
    }
    let n: usize = used as usize;
    Some(
        (ColumnData::Bool { data: slice_to_vec(slice_subrange(p, 8, n)), len: len as usize }, n),
    )
}

fn read_plain_dict(p: &[u8]) -> (r: Option<(ColumnData, usize)>)
    ensures
        read_is(r, plain_dict(p@)),
{
    match read_dict_text(p) {
        Ok(Some(d)) => {
            let used: u128 = 16 + d.rows as u128 * 4 + d.size as u128 * 4 + 8 + d.declared as u128;
            if used > p.len() as u128 {
                return None;
            }
            let indices: Vec<u32> = bytes_as_u32_slice(d.indices, d.rows);
            let dict_offsets: Vec<u64> = get_offset_words(d.offsets, d.size);
            let dict_data: Vec<u8> = slice_to_vec(d.raw);
            Some((ColumnData::StringDict { indices, dict_offsets, dict_data }, used as usize))
        },
        _ => None,
    }
}

fn unpack(packed: &[u8], width: usize, min: i64, n: usize) -> (r: Option<Vec<i64>>)
    ensures
        match r {
            None => unpacked(packed@, width as int, min as int, n as int) is None,
            Some(v) => unpacked(packed@, width as int, min as int, n as int) == Some(v@),
        },
{
    let mut out: Vec<i64> = Vec::new();
    let mut k: usize = 0;
    assert(out@ =~= Seq::empty());
    while k < n
        invariant
            k <= n,
            unpacked(packed@, width as int, min as int, k as int) == Some(out@),
        decreases n - k,
    {
        match bitpack_value_at(packed, width, min, k) {
            None => {
                proof {
                    unpacked_failed(packed@, width as int, min as int, k + 1, n as int);
                }
                return None;
            },
            Some(v) => {
                out.push(v);
            },
        }
        k = k + 1;
    }
    Some(out)
}

fn read_packed_ints(p: &[u8]) -> (r: Option<(ColumnData, usize)>)
    ensures
        read_is(r, packed_ints(p@)),
{
    if p.len() < 17 {
        return None;
    }
    let count: u64 = read_u64(p, 0);
    let width: u8 = p[8];
    assert(0 <= count * width <= 0x1_0000_0000_0000_0000 * 256) by (nonlinear_arith)
        requires
            0 <= count <= 0xffff_ffff_ffff_ffff,
            0 <= width < 256,
    ;
    let used: u128 = 17 + (count as u128 * width as u128 + 7) / 8;
    if used > p.len() as u128 || count as u128 > usize::MAX as u128 {
        return None;
    }
    let end: usize = used as usize;
    let n: usize = count as usize;
    let min: i64 = read_i64(p, 9);
    let packed: &[u8] = slice_subrange(p, 17, end);
    match unpack(packed, width as usize, min, n) {
        None => None,
        Some(v) => Some((ColumnData::Int64(v), end)),
    }
}

fn read_plain_column(p: &[u8], kind: ColumnType) -> (r: Option<(ColumnData, usize)>)
    ensures
        read_is(r, plain_column(p@, kind)),
        r matches Some((_, n)) ==> n <= p.len(),
{
    reveal(plain_column);
    if kind.is_int() {
        return read_plain_ints(p);
    }
    if kind.is_float() {
        return read_plain_reals(p);
    }
    match kind {
        ColumnType::String => read_plain_strings(p, false),
        ColumnType::Binary => read_plain_strings(p, true),
        ColumnType::Blob => read_plain_strings(p, true),
        ColumnType::Bool => read_plain_bits(p),
        ColumnType::StringDict => read_plain_dict(p),
        _ => None,
    }
}

fn read_tagged_column(bytes: &[u8], kind: ColumnType) -> (r: Option<(ColumnData, usize)>)
    ensures
        read_is(r, tagged_column(bytes@, kind)),
{
    if bytes.len() == 0 {
        return None;
    }
    let p: &[u8] = get_tail(bytes, 1);
    let got: Option<(ColumnData, usize)> = if bytes[0] == COL_ENCODING_PLAIN {
        read_plain_column(p, kind)
    } else if bytes[0] == COL_ENCODING_BITPACK && kind.is_int() {
        read_packed_ints(p)
    } else {
        None
    };
    match got {
        None => None,
        Some((col, n)) => Some((col, n + 1)),
    }
}

fn cut_column(col: ColumnData, n: usize) -> (r: ColumnData)
    ensures
        r@ == first_of_column(col@, n as int),
{
    match col {
        ColumnData::Int64(v) => {
            let mut v: Vec<i64> = v;
            let ghost all = v@;
            v.truncate(n);
            assert(v@ =~= all.take(min2(all.len() as int, n as int)));
            ColumnData::Int64(v)
        },
        ColumnData::Float64(v) => {
            let mut v: Vec<F64> = v;
            let ghost all = v@;
            v.truncate(n);
            assert(v@ =~= all.take(min2(all.len() as int, n as int)));
            ColumnData::Float64(v)
        },
        ColumnData::String { offsets, data } => {
            let mut offsets: Vec<u64> = offsets;
            cut_offsets(&mut offsets, n);
            ColumnData::String { offsets, data }
        },
        ColumnData::Binary { offsets, data } => {
            let mut offsets: Vec<u64> = offsets;
            cut_offsets(&mut offsets, n);
            ColumnData::Binary { offsets, data }
        },
        ColumnData::StringDict { indices, dict_offsets, dict_data } => {
            let mut indices: Vec<u32> = indices;
            let ghost all = indices@;
            indices.truncate(n);
            assert(indices@ =~= all.take(min2(all.len() as int, n as int)));
            ColumnData::StringDict { indices, dict_offsets, dict_data }
        },
        ColumnData::Bool { data, len } => ColumnData::Bool {
            data,
            len: if len < n {
                len
            } else {
                n
            },
        },
        other => other,
    }
}

fn cut_offsets(offsets: &mut Vec<u64>, n: usize)
    ensures
        final(offsets)@ == old(offsets)@.take(min2(old(offsets)@.len() as int, n + 1)),
{
    let ghost all = offsets@;
    if n < offsets.len() {
        offsets.truncate(n + 1);
    }
    assert(offsets@ =~= all.take(min2(all.len() as int, n + 1)));
}

/// The dictionary behind a plain column.
pub open spec fn dict_of(p: Seq<u8>) -> Option<DictSeq> {
    match dict_text(p) {
        Ok(Some(d)) => Some(
            DictSeq {
                indices: index_words(d.indices, d.rows),
                values: Seq::new(d.size as nat, |k: int| d.value(k)),
            },
        ),
        _ => None,
    }
}

fn read_dict_of(p: &[u8]) -> (r: Option<StringDictView>)
    ensures
        match r {
            None => dict_of(p@) is None,
            Some(d) => dict_of(p@) == Some(d@),
        },
{
    match read_dict_text(p) {
        Ok(Some(d)) => {
            let indices: Vec<u32> = bytes_as_u32_slice(d.indices, d.rows);
            let mut values: Vec<Option<Vec<u8>>> = Vec::with_capacity(d.size);
            let ghost want = dict_of(p@)->0;
            let mut k: usize = 0;
            while k < d.size
                invariant
                    k <= d.size,
                    d.wf(),
                    values@.len() == k,
                    want.values == Seq::new(d@.size as nat, |k: int| d@.value(k)),
                    forall|j: int| 0 <= j < k ==> bytes_view(#[trigger] values@[j])
                        == want.values[j],
                decreases d.size - k,
            {
                match d.value(k) {
                    None => {
                        values.push(None);
                    },
                    Some(v) => {
                        values.push(Some(slice_to_vec(v)));
                    },
                }
                k = k + 1;
            }
            let view: StringDictView = StringDictView { indices, values };
            assert(view@.values =~= want.values);
            assert(view@.indices =~= want.indices);
            Some(view)
        },
        _ => None,
    }
}

/// The bytes that a quantised vector of `dim` components takes.
pub open spec fn vector_bytes(codec: VectorCodec, dim: int) -> Option<int> {
    let n = match codec {
        VectorCodec::BFloat16 => Some(dim * 2),
        VectorCodec::Int8 => Some(dim),
        VectorCodec::UInt8 => Some(dim),
        VectorCodec::Bit1 => Some(bitmap_len(dim)),
        _ => None,
    };
    match n {
        None => None,
        Some(k) => if k > usize::MAX {
            None
        } else {
            Some(k)
        },
    }
}

impl ColumnCodec for PlainCodec {
    open spec fn inflated(&self, flag: u8, stored: Seq<u8>) -> Option<Seq<u8>> {
        None
    }

    open spec fn decoded(&self, tagged: bool, bytes: Seq<u8>, kind: ColumnType) -> Option<
        (ColumnSeq, nat),
    > {
        if tagged {
            tagged_column(bytes, kind)
        } else {
            plain_column(bytes, kind)
        }
    }

    open spec fn extent(&self, tagged: bool, bytes: Seq<u8>, kind: ColumnType) -> Option<nat> {
        match self.decoded(tagged, bytes, kind) {
            None => None,
            Some((_, n)) => Some(n),
        }
    }

    open spec fn dictionary(&self, compact: bool, bytes: Seq<u8>) -> Option<DictSeq> {
        if compact {
            None
        } else {
            dict_of(bytes)
        }
    }

    open spec fn decoded_first(&self, bytes: Seq<u8>, kind: ColumnType, n: nat) -> Option<
        (ColumnSeq, nat),
    > {
        match tagged_column(bytes, kind) {
            None => None,
            Some((col, used)) => Some((first_of_column(col, n as int), used)),
        }
    }

    open spec fn width(&self, codec: VectorCodec, dim: nat) -> Option<nat> {
        match vector_bytes(codec, dim as int) {
            None => None,
            Some(n) => Some(n as nat),
        }
    }

    open spec fn expanded(&self, form: ListForm, dim: u32, bytes: Seq<u8>) -> Option<Seq<u8>> {
        if form is Float32 {
            Some(bytes)
        } else {
            None
        }
    }

    open spec fn blob(&self, reference: Seq<u8>) -> Option<Seq<u8>> {
        None
    }

    fn decompress_rg_body(&self, flag: u8, stored: &[u8]) -> (r: Option<Vec<u8>>) {
        None
    }

    fn read_column(&self, tagged: bool, bytes: &[u8], kind: ColumnType) -> (r: Option<
        (ColumnData, usize),
    >) {
        if tagged {
            read_tagged_column(bytes, kind)
        } else {
            read_plain_column(bytes, kind)
        }
    }

    fn skip_column(&self, tagged: bool, bytes: &[u8], kind: ColumnType) -> (r: Option<usize>) {
        match self.read_column(tagged, bytes, kind) {
            None => None,
            Some((_, n)) => Some(n),
        }
    }

    fn read_dictionary(&self, compact: bool, bytes: &[u8]) -> (r: Option<StringDictView>) {
        if compact {
            None
        } else {
            read_dict_of(bytes)
        }
    }

    fn read_column_partial(&self, bytes: &[u8], kind: ColumnType, n: usize) -> (r: Option<
        (ColumnData, usize),
    >) {
        match read_tagged_column(bytes, kind) {
            None => None,
            Some((col, used)) => Some((cut_column(col, n), used)),
        }
    }

    fn row_width(&self, codec: VectorCodec, dim: usize) -> (r: Option<usize>) {
        match codec {
            VectorCodec::BFloat16 => if dim <= usize::MAX / 2 {
                Some(dim * 2)
            } else {
                None
            },
            VectorCodec::Int8 => Some(dim),
            VectorCodec::UInt8 => Some(dim),
            VectorCodec::Bit1 => Some(((dim as u128 + 7) / 8) as usize),
            _ => None,
        }
    }

    fn expand_vector(&self, form: ListForm, dim: u32, bytes: &[u8]) -> (r: Option<Vec<u8>>) {
        match form {
            ListForm::Float32 => Some(slice_to_vec(bytes)),
            _ => None,
        }
    }

    fn read_blob(&self, reference: &[u8]) -> (r: Option<Vec<u8>>) {
        None
    }
}

} // verus!
