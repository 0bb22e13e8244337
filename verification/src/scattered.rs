//! Reading rows at given places of columns that stand on their own in a file.

use vstd::prelude::*;

use crate::bytes::{
    bit, bytes_as_i64_slice, read_u32, read_u64, test_bit, u32_le, u64_le,
};
use crate::codec::ColumnCodec;
use crate::column::{ColumnData, ColumnSeq, VectorCodec};
use crate::column_ops::{add_bit, add_bytes, codec_of, with_truth};
use crate::double::F64;
use crate::model::{is_float, is_int, ColumnType, ScanError};
use crate::numeric::bytes_as_f64_slice;
use crate::reads::{
    column_is, dict_parts, dim_of, get_dict_parts, get_dim, get_grab, grab, int_words,
    make_variable_column, no_dictionary, real_words, variable_column, vector_width, zero_ints,
    ColumnIndexEntry,
};
use crate::storage::OnDemandStorage;

verus! {

/// The chunks of `n` bytes each at some places from byte `at` of the file on, one after the other.
pub open spec fn chunks(file: Seq<u8>, at: int, n: int, rows: Seq<usize>) -> Result<
    Seq<u8>,
    ScanError,
>
    decreases rows.len(),
{
    if rows.len() == 0 {
        Ok(Seq::empty())
    } else {
        match chunks(file, at, n, rows.drop_last()) {
            Err(e) => Err(e),
            Ok(before) => match grab(file, at + rows.last() * n, n) {
                Err(e) => Err(e),
                Ok(w) => Ok(before + w),
            },
        }
    }
}

proof fn chunks_failed(file: Seq<u8>, at: int, n: int, rows: Seq<usize>, j: int)
    requires
        0 <= j <= rows.len(),
        chunks(file, at, n, rows.take(j)) is Err,
    ensures
        chunks(file, at, n, rows) == chunks(file, at, n, rows.take(j)),
    decreases rows.len() - j,
{
    if j < rows.len() {
        assert(rows.take(j + 1).drop_last() =~= rows.take(j));
        chunks_failed(file, at, n, rows, j + 1);
    } else {
        assert(rows.take(j) =~= rows);
    }
}

proof fn chunks_len(file: Seq<u8>, at: int, n: int, rows: Seq<usize>)
    requires
        0 <= n,
        0 <= at,
    ensures
        chunks(file, at, n, rows) matches Ok(s) ==> s.len() == rows.len() * n,
    decreases rows.len(),
{
    if rows.len() > 0 {
        chunks_len(file, at, n, rows.drop_last());
        let m = rows.len() as int;
        let k = rows.last() as int;
        assert((m - 1) * n + n == m * n && k * n >= 0) by (nonlinear_arith)
            requires
                m > 0,
                0 <= n,
                0 <= k,
        ;
    } else {
        assert(0 * n == 0) by (nonlinear_arith);
    }
}

fn get_chunks(file: &[u8], at: u128, n: usize, rows: &[usize]) -> (r: Result<Vec<u8>, ScanError>)
    requires
        at <= 0x2_0000_0000_0000_0000,
    ensures
        match r {
            Err(e) => chunks(file@, at as int, n as int, rows@) == Err::<Seq<u8>, ScanError>(e),
            Ok(v) => chunks(file@, at as int, n as int, rows@) == Ok::<Seq<u8>, ScanError>(v@),
        },
{
    let mut out: Vec<u8> = Vec::new();
    let mut i: usize = 0;
    assert(rows@.take(0) =~= Seq::empty());
    while i < rows.len()
        invariant
            i <= rows.len(),
            at <= 0x2_0000_0000_0000_0000,
            chunks(file@, at as int, n as int, rows@.take(i as int)) == Ok::<
                Seq<u8>,
                ScanError,
            >(out@),
        decreases rows.len() - i,
    {
        let row: usize = rows[i];
        proof {
            assert(rows@.take(i + 1).drop_last() =~= rows@.take(i as int));
            assert(rows@.take(i + 1).last() == row);
            assert(0 <= row * n <= 0xffff_ffff_ffff_ffff * 0xffff_ffff_ffff_ffff) by (
            nonlinear_arith)
                requires
                    0 <= row <= 0xffff_ffff_ffff_ffff,
                    0 <= n <= 0xffff_ffff_ffff_ffff,
            ;
        }
        let far: u128 = row as u128 * n as u128;
        if far > file.len() as u128 {
            proof {
                chunks_failed(file@, at as int, n as int, rows@, i + 1);
            }
            return Err(ScanError::ReadPastEnd);
        }
        match get_grab(file, at + far, n as u128) {
            Err(e) => {
                proof {
                    chunks_failed(file@, at as int, n as int, rows@, i + 1);
                }
                return Err(e);
            },
            Ok(w) => {
                add_bytes(&mut out, w);
            },
        }
        i = i + 1;
    }
    assert(rows@.take(rows@.len() as int) =~= rows@);
    Ok(out)
}

/// The rows of a column of lists of fixed length and its dimension. An empty selection and lists
/// without entries have no bytes.
pub open spec fn lists_at(file: Seq<u8>, at: int, entry: int, rows: Seq<usize>) -> Result<
    (Seq<u8>, u32),
    ScanError,
> {
    match dim_of(file, at, true) {
        Err(e) => Err(e),
        Ok(dim) => if rows.len() == 0 || dim == 0 {
            Ok((Seq::empty(), dim))
        } else {
            match chunks(file, at + 12, dim * entry, rows) {
                Err(e) => Err(e),
                Ok(data) => Ok((data, dim)),
            }
        },
    }
}

/// The vectors at some places.
pub open spec fn vectors_at<C: ColumnCodec>(
    c: C,
    file: Seq<u8>,
    at: int,
    codec: VectorCodec,
    rows: Seq<usize>,
) -> Result<ColumnSeq, ScanError> {
    match dim_of(file, at, true) {
        Err(e) => Err(e),
        Ok(dim) => match vector_width(c, codec, dim) {
            Err(e) => Err(e),
            Ok(n) => if rows.len() * n > usize::MAX {
                Err(ScanError::LengthOverflow)
            } else {
                match chunks(file, at + 12, n, rows) {
                    Err(e) => Err(e),
                    Ok(data) => Ok(ColumnSeq::QuantizedList { data, dim, codec }),
                }
            },
        },
    }
}

/// The bits at some places.
pub open spec fn bits_at(bits: Seq<u8>, rows: Seq<usize>) -> ColumnSeq
    decreases rows.len(),
{
    if rows.len() == 0 {
        ColumnSeq::Bool { data: Seq::empty(), len: 0 }
    } else {
        match bits_at(bits, rows.drop_last()) {
            ColumnSeq::Bool { data, len } => with_truth(data, len, bit(bits, rows.last() as int)),
            other => other,
        }
    }
}

pub proof fn bits_at_len(bits: Seq<u8>, rows: Seq<usize>)
    requires
        rows.len() <= usize::MAX,
    ensures
        bits_at(bits, rows) matches ColumnSeq::Bool { data, len } && len == rows.len(),
    decreases rows.len(),
{
    if rows.len() > 0 {
        bits_at_len(bits, rows.drop_last());
    }
}

pub(crate) fn get_bits_at(bits: &[u8], rows: &[usize]) -> (r: ColumnData)
    ensures
        r@ == bits_at(bits@, rows@),
{
    let mut data: Vec<u8> = Vec::new();
    let mut i: usize = 0;
    assert(rows@.take(0) =~= Seq::empty());
    assert(data@ =~= Seq::empty());
    while i < rows.len()
        invariant
            i <= rows.len(),
            bits_at(bits@, rows@.take(i as int)) == (ColumnSeq::Bool { data: data@, len: i }),
        decreases rows.len() - i,
    {
        proof {
            assert(rows@.take(i + 1).drop_last() =~= rows@.take(i as int));
        }
        add_bit(&mut data, i, test_bit(bits, rows[i]));
        i = i + 1;
    }
    assert(rows@.take(rows@.len() as int) =~= rows@);
    ColumnData::Bool { data, len: rows.len() }
}

/// The truth values at some places of a column whose length is known.
pub open spec fn bools_at(file: Seq<u8>, at: int, length: int, rows: Seq<usize>) -> Result<
    ColumnSeq,
    ScanError,
> {
    if length < 8 {
        Err(ScanError::Corrupt)
    } else {
        let n = (length - 8 + 7) / 8;
        if n == 0 {
            Ok(bits_at(seq![0u8], rows))
        } else {
            match grab(file, at + 8, n) {
                Err(e) => Err(e),
                Ok(w) => Ok(bits_at(w, rows)),
            }
        }
    }
}

/// The largest of some places.
pub open spec fn top_place(rows: Seq<usize>) -> int
    decreases rows.len(),
{
    if rows.len() == 0 {
        0
    } else if rows.len() == 1 || rows.last() > top_place(rows.drop_last()) {
        rows.last() as int
    } else {
        top_place(rows.drop_last())
    }
}

/// The smallest of some places.
pub open spec fn bottom_place(rows: Seq<usize>) -> int
    decreases rows.len(),
{
    if rows.len() == 0 {
        0
    } else if rows.len() == 1 || rows.last() < bottom_place(rows.drop_last()) {
        rows.last() as int
    } else {
        bottom_place(rows.drop_last())
    }
}

fn get_places(rows: &[usize]) -> (r: (usize, usize))
    requires
        rows.len() > 0,
    ensures
        r.0 == bottom_place(rows@),
        r.1 == top_place(rows@),
        r.0 <= r.1,
        forall|i: int| 0 <= i < rows@.len() ==> r.0 <= #[trigger] rows@[i] <= r.1,
{
    let mut low: usize = rows[0];
    let mut high: usize = rows[0];
    let mut i: usize = 1;
    assert(rows@.take(1).last() == rows@[0]);
    while i < rows.len()
        invariant
            1 <= i <= rows.len(),
            low == bottom_place(rows@.take(i as int)),
            high == top_place(rows@.take(i as int)),
            low <= high,
            forall|k: int| 0 <= k < i ==> low <= #[trigger] rows@[k] <= high,
        decreases rows.len() - i,
    {
        proof {
            assert(rows@.take(i + 1).drop_last() =~= rows@.take(i as int));
        }
        if rows[i] < low {
            low = rows[i];
        }
        if rows[i] > high {
            high = rows[i];
        }
        i = i + 1;
    }
    assert(rows@.take(rows@.len() as int) =~= rows@);
    (low, high)
}

/// Whether many places are so close together that the words between them are read as well.
pub open spec fn close_together(rows: Seq<usize>, total: int) -> bool {
    let span = top_place(rows) - bottom_place(rows) + 1;
    rows.len() > 256 && span <= rows.len() * 4 && span <= total
}

/// The words at some places, 0 for places beyond `total`.
pub open spec fn words_at(file: Seq<u8>, at: int, total: int, rows: Seq<usize>) -> Result<
    Seq<u32>,
    ScanError,
>
    decreases rows.len(),
{
    if rows.len() == 0 {
        Ok(Seq::empty())
    } else {
        match words_at(file, at, total, rows.drop_last()) {
            Err(e) => Err(e),
            Ok(before) => if rows.last() >= total {
                Ok(before.push(0))
            } else {
                match grab(file, at + rows.last() * 4, 4) {
                    Err(e) => Err(e),
                    Ok(w) => Ok(before.push(u32_le(w, 0) as u32)),
                }
            },
        }
    }
}

proof fn words_at_failed(file: Seq<u8>, at: int, total: int, rows: Seq<usize>, j: int)
    requires
        0 <= j <= rows.len(),
        words_at(file, at, total, rows.take(j)) is Err,
    ensures
        words_at(file, at, total, rows) == words_at(file, at, total, rows.take(j)),
    decreases rows.len() - j,
{
    if j < rows.len() {
        assert(rows.take(j + 1).drop_last() =~= rows.take(j));
        words_at_failed(file, at, total, rows, j + 1);
    } else {
        assert(rows.take(j) =~= rows);
    }
}

fn get_words_at(file: &[u8], at: u128, total: u64, rows: &[usize]) -> (r: Result<
    Vec<u32>,
    ScanError,
>)
    requires
        at <= 0x2_0000_0000_0000_0000,
    ensures
        match r {
            Err(e) => words_at(file@, at as int, total as int, rows@) == Err::<
                Seq<u32>,
                ScanError,
            >(e),
            Ok(v) => words_at(file@, at as int, total as int, rows@) == Ok::<
                Seq<u32>,
                ScanError,
            >(v@),
        },
{
    let mut out: Vec<u32> = Vec::new();
    let mut i: usize = 0;
    assert(rows@.take(0) =~= Seq::empty());
    while i < rows.len()
        invariant
            i <= rows.len(),
            at <= 0x2_0000_0000_0000_0000,
            words_at(file@, at as int, total as int, rows@.take(i as int)) == Ok::<
                Seq<u32>,
                ScanError,
            >(out@),
        decreases rows.len() - i,
    {
        proof {
            assert(rows@.take(i + 1).drop_last() =~= rows@.take(i as int));
        }
        if rows[i] as u64 >= total {
            out.push(0);
        } else {
            match get_grab(file, at + rows[i] as u128 * 4, 4) {
                Err(e) => {
                    proof {
                        words_at_failed(file@, at as int, total as int, rows@, i + 1);
                    }
                    return Err(e);
                },
                Ok(w) => {
                    out.push(read_u32(w, 0));
                },
            }
        }
        i = i + 1;
    }
    assert(rows@.take(rows@.len() as int) =~= rows@);
    Ok(out)
}

/// The rows of a dictionary column at some places.
pub open spec fn dict_at(file: Seq<u8>, at: int, rows: Seq<usize>) -> Result<ColumnSeq, ScanError> {
    if rows.len() == 0 {
        Ok(
            ColumnSeq::StringDict {
                indices: Seq::empty(),
                dict_offsets: seq![0u64],
                dict_data: Seq::empty(),
            },
        )
    } else {
        match grab(file, at, 16) {
            Err(e) => Err(e),
            Ok(head) => {
                let total = u64_le(head, 0) as int;
                let size = u64_le(head, 8) as int;
                let low = bottom_place(rows);
                if close_together(rows, total) && grab(
                    file,
                    at + 16 + low * 4,
                    (top_place(rows) - low + 1) * 4,
                ) is Err {
                    Err(ScanError::ReadPastEnd)
                } else {
                    match words_at(file, at + 16, total, rows) {
                        Err(e) => Err(e),
                        Ok(indices) => match dict_parts(file, at, total, size) {
                            Err(e) => Err(e),
                            Ok((dict_offsets, dict_data)) => Ok(
                                ColumnSeq::StringDict { indices, dict_offsets, dict_data },
                            ),
                        },
                    }
                }
            },
        }
    }
}

/// Whether the offsets around every place below `total` are there.
pub open spec fn offsets_there(file: Seq<u8>, at: int, total: int, rows: Seq<usize>) -> bool {
    forall|i: int|
        0 <= i < rows.len() && rows[i] < total ==> at + 8 + (#[trigger] rows[i] + 2) * 4
            <= file.len()
}

/// Whether some place lies below `total`.
pub open spec fn any_below(rows: Seq<usize>, total: int) -> bool {
    exists|i: int| 0 <= i < rows.len() && #[trigger] rows[i] < total
}

/// The strings at some places, by their offsets and data; places beyond `total` have empty ones.
pub open spec fn strings_at(file: Seq<u8>, at: int, total: int, rows: Seq<usize>) -> Result<
    (Seq<u64>, Seq<u8>),
    ScanError,
>
    decreases rows.len(),
{
    if rows.len() == 0 {
        Ok((seq![0u64], Seq::empty()))
    } else {
        match strings_at(file, at, total, rows.drop_last()) {
            Err(e) => Err(e),
            Ok((offsets, data)) => {
                let row = rows.last() as int;
                if row >= total {
                    Ok((offsets.push(data.len() as u64), data))
                } else {
                    let s = u32_le(file, at + 8 + row * 4) as int;
                    let e = u32_le(file, at + 8 + (row + 1) * 4) as int;
                    if e < s {
                        Err(ScanError::Corrupt)
                    } else if e == s {
                        Ok((offsets.push(data.len() as u64), data))
                    } else {
                        match grab(file, at + 8 + (total + 1) * 4 + 8 + s, e - s) {
                            Err(x) => Err(x),
                            Ok(w) => Ok(
                                (offsets.push((data.len() + w.len()) as u64), data + w),
                            ),
                        }
                    }
                }
            },
        }
    }
}

proof fn strings_at_failed(file: Seq<u8>, at: int, total: int, rows: Seq<usize>, j: int)
    requires
        0 <= j <= rows.len(),
        strings_at(file, at, total, rows.take(j)) is Err,
    ensures
        strings_at(file, at, total, rows) == strings_at(file, at, total, rows.take(j)),
    decreases rows.len() - j,
{
    if j < rows.len() {
        assert(rows.take(j + 1).drop_last() =~= rows.take(j));
        strings_at_failed(file, at, total, rows, j + 1);
    } else {
        assert(rows.take(j) =~= rows);
    }
}

/// The rows of a column of strings or bytes at some places.
pub open spec fn variable_at(file: Seq<u8>, at: int, kind: ColumnType, rows: Seq<usize>) -> Result<
    ColumnSeq,
    ScanError,
> {
    let none = if kind is String {
        ColumnSeq::String { offsets: seq![0u64], data: Seq::empty() }
    } else {
        ColumnSeq::Binary { offsets: seq![0u64], data: Seq::empty() }
    };
    if rows.len() == 0 {
        Ok(none)
    } else {
        match grab(file, at, 8) {
            Err(e) => Err(e),
            Ok(head) => {
                let total = u64_le(head, 0) as int;
                if !any_below(rows, total) {
                    Ok(none)
                } else if !offsets_there(file, at, total, rows) {
                    Err(ScanError::ReadPastEnd)
                } else {
                    match strings_at(file, at, total, rows) {
                        Err(e) => Err(e),
                        Ok((offsets, data)) => variable_column(kind, offsets, data),
                    }
                }
            },
        }
    }
}

fn no_strings(kind: ColumnType) -> (r: ColumnData)
    ensures
        r@ == if kind is String {
            ColumnSeq::String { offsets: seq![0u64], data: Seq::empty() }
        } else {
            ColumnSeq::Binary { offsets: seq![0u64], data: Seq::empty() }
        },
{
    let mut offsets: Vec<u64> = Vec::new();
    offsets.push(0);
    let data: Vec<u8> = Vec::new();
    assert(offsets@ =~= seq![0u64]);
    assert(data@ =~= Seq::empty());
    match kind {
        ColumnType::String => ColumnData::String { offsets, data },
        _ => ColumnData::Binary { offsets, data },
    }
}

fn get_strings_at(file: &[u8], at: u64, total: u64, rows: &[usize]) -> (r: Result<
    (Vec<u64>, Vec<u8>),
    ScanError,
>)
    requires
        offsets_there(file@, at as int, total as int, rows@),
    ensures
        match r {
            Err(e) => strings_at(file@, at as int, total as int, rows@) == Err::<
                (Seq<u64>, Seq<u8>),
                ScanError,
            >(e),
            Ok((o, d)) => strings_at(file@, at as int, total as int, rows@) == Ok::<
                (Seq<u64>, Seq<u8>),
                ScanError,
            >((o@, d@)),
        },
{
    let mut offsets: Vec<u64> = Vec::new();
    offsets.push(0);
    let mut data: Vec<u8> = Vec::new();
    let mut i: usize = 0;
    assert(rows@.take(0) =~= Seq::empty());
    assert(offsets@ =~= seq![0u64]);
    assert(data@ =~= Seq::empty());
    while i < rows.len()
        invariant
            i <= rows.len(),
            offsets_there(file@, at as int, total as int, rows@),
            strings_at(file@, at as int, total as int, rows@.take(i as int)) == Ok::<
                (Seq<u64>, Seq<u8>),
                ScanError,
            >((offsets@, data@)),
        decreases rows.len() - i,
    {
        let row: usize = rows[i];
        proof {
            assert(rows@.take(i + 1).drop_last() =~= rows@.take(i as int));
            assert(rows@.take(i + 1).last() == row);
            assert(rows@[i as int] == row);
        }
        if (row as u64) < total {
            assert(at + 8 + (row + 2) * 4 <= file.len());
            let here: usize = (at as u128 + 8 + row as u128 * 4) as usize;
            let s: u32 = read_u32(file, here);
            let e: u32 = read_u32(file, here + 4);
            if e < s {
                proof {
                    strings_at_failed(file@, at as int, total as int, rows@, i + 1);
                }
                return Err(ScanError::Corrupt);
            }
            if e > s {
                match get_grab(
                    file,
                    at as u128 + 8 + (total as u128 + 1) * 4 + 8 + s as u128,
                    (e - s) as u128,
                ) {
                    Err(x) => {
                        proof {
                            strings_at_failed(file@, at as int, total as int, rows@, i + 1);
                        }
                        return Err(x);
                    },
                    Ok(w) => {
                        add_bytes(&mut data, w);
                    },
                }
            }
        }
        offsets.push(data.len() as u64);
        i = i + 1;
    }
    assert(rows@.take(rows@.len() as int) =~= rows@);
    Ok((offsets, data))
}

/// Looks at the offsets around every place: whether some place lies below `total`, and whether all
/// that are needed are there.
fn look_at_offsets(file: &[u8], at: u64, total: u64, rows: &[usize]) -> (r: (bool, bool))
    ensures
        r.0 == any_below(rows@, total as int),
        r.1 == offsets_there(file@, at as int, total as int, rows@),
{
    let mut any: bool = false;
    let mut all: bool = true;
    let mut i: usize = 0;
    while i < rows.len()
        invariant
            i <= rows.len(),
            any == (exists|k: int| 0 <= k < i && #[trigger] rows@[k] < total),
            all == (forall|k: int|
                0 <= k < i && rows@[k] < total ==> at + 8 + (#[trigger] rows@[k] + 2) * 4
                    <= file.len()),
        decreases rows.len() - i,
    {
        let row: usize = rows[i];
        assert(rows@[i as int] == row);
        if (row as u64) < total {
            any = true;
            if at as u128 + 8 + (row as u128 + 2) * 4 > file.len() as u128 {
                all = false;
            }
        }
        i = i + 1;
    }
    (any, all)
}

/// The rows of a column at some places.
pub open spec fn column_at<C: ColumnCodec>(
    c: C,
    file: Seq<u8>,
    index: ColumnIndexEntry,
    kind: ColumnType,
    rows: Seq<usize>,
) -> Result<ColumnSeq, ScanError> {
    let at = index.data_offset as int;
    if is_int(kind) {
        match chunks(file, at + 8, 8, rows) {
            Err(e) => Err(e),
            Ok(w) => Ok(ColumnSeq::Int64(int_words(w, rows.len() as int))),
        }
    } else if is_float(kind) {
        match chunks(file, at + 8, 8, rows) {
            Err(e) => Err(e),
            Ok(w) => Ok(ColumnSeq::Float64(real_words(w, rows.len() as int))),
        }
    } else {
        match kind {
            ColumnType::String | ColumnType::Binary | ColumnType::Blob => variable_at(
                file,
                at,
                kind,
                rows,
            ),
            ColumnType::Bool => bools_at(file, at, index.data_length as int, rows),
            ColumnType::StringDict => dict_at(file, at, rows),
            ColumnType::FixedList => match lists_at(file, at, 4, rows) {
                Err(e) => Err(e),
                Ok((data, dim)) => Ok(ColumnSeq::FixedList { data, dim }),
            },
            ColumnType::Float16List => match lists_at(file, at, 2, rows) {
                Err(e) => Err(e),
                Ok((data, dim)) => Ok(ColumnSeq::Float16List { data, dim }),
            },
            _ => match codec_of(kind) {
                Some(codec) => vectors_at(c, file, at, codec, rows),
                None => Ok(ColumnSeq::Int64(Seq::new(rows.len(), |i: int| 0i64))),
            },
        }
    }
}

impl<C: ColumnCodec> OnDemandStorage<C> {
    /// Reads the double words of a column at some places, as they are stored.
    pub fn read_numeric_scattered_optimized(
        file: &[u8],
        index: &ColumnIndexEntry,
        row_indices: &[usize],
    ) -> (r: Result<Vec<u8>, ScanError>)
        ensures
            match r {
                Err(e) => chunks(file@, index.data_offset + 8, 8, row_indices@) == Err::<
                    Seq<u8>,
                    ScanError,
                >(e),
                Ok(v) => chunks(file@, index.data_offset + 8, 8, row_indices@) == Ok::<
                    Seq<u8>,
                    ScanError,
                >(v@),
            },
    {
        get_chunks(file, index.data_offset as u128 + 8, 8, row_indices)
    }

    /// Reads the rows of a column of lists of fixed length at some places, with its dimension.
    pub fn read_fixed_scattered_optimized(
        file: &[u8],
        index: &ColumnIndexEntry,
        row_indices: &[usize],
        elem_bytes: usize,
    ) -> (r: Result<(Vec<u8>, u32), ScanError>)
        requires
            elem_bytes <= 8,
        ensures
            match r {
                Err(e) => lists_at(
                    file@,
                    index.data_offset as int,
                    elem_bytes as int,
                    row_indices@,
                ) == Err::<(Seq<u8>, u32), ScanError>(e),
                Ok((v, dim)) => lists_at(
                    file@,
                    index.data_offset as int,
                    elem_bytes as int,
                    row_indices@,
                ) == Ok::<(Seq<u8>, u32), ScanError>((v@, dim)),
            },
    {
        let at: u64 = index.data_offset;
        let dim: u32 = match get_dim(file, at, true) {
            Err(e) => {
                return Err(e);
            },
            Ok(d) => d,
        };
        if row_indices.len() == 0 || dim == 0 {
            let none: Vec<u8> = Vec::new();
            assert(none@ =~= Seq::empty());
            return Ok((none, dim));
        }
        assert(0 <= dim * elem_bytes <= 0xffff_ffff * 8) by (nonlinear_arith)
            requires
                0 <= dim <= 0xffff_ffff,
                0 <= elem_bytes <= 8,
        ;
        let width: u64 = dim as u64 * elem_bytes as u64;
        if width > file.len() as u64 {
            proof {
                let first = row_indices@.take(1);
                let wide = dim * elem_bytes;
                let row = first.last() as int;
                assert(first.drop_last() =~= Seq::empty());
                assert(0 <= row * wide) by (nonlinear_arith)
                    requires
                        0 <= row,
                        0 <= wide,
                ;
                assert(chunks(file@, at + 12, wide, first.drop_last()) is Ok);
                assert(grab(file@, at + 12 + row * wide, wide) is Err);
                assert(chunks(file@, at + 12, wide, first) == Err::<Seq<u8>, ScanError>(
                    ScanError::ReadPastEnd,
                ));
                chunks_failed(file@, at + 12, wide, row_indices@, 1);
            }
            return Err(ScanError::ReadPastEnd);
        }
        match get_chunks(file, at as u128 + 12, width as usize, row_indices) {
            Err(e) => Err(e),
            Ok(v) => Ok((v, dim)),
        }
    }

    /// Reads the rows of a column of strings or bytes at some places.
    pub fn read_variable_column_scattered_mmap(
        &self,
        file: &[u8],
        index: &ColumnIndexEntry,
        dtype: ColumnType,
        row_indices: &[usize],
    ) -> (r: Result<ColumnData, ScanError>)
        ensures
            column_is(
                r,
                variable_at(file@, index.data_offset as int, dtype, row_indices@),
            ),
    {
        if row_indices.len() == 0 {
            return Ok(no_strings(dtype));
        }
        let at: u64 = index.data_offset;
        let head: &[u8] = match get_grab(file, at as u128, 8) {
            Err(e) => {
                return Err(e);
            },
            Ok(w) => w,
        };
        let total: u64 = read_u64(head, 0);
        let (any, all): (bool, bool) = look_at_offsets(file, at, total, row_indices);
        if !any {
            return Ok(no_strings(dtype));
        }
        if !all {
            return Err(ScanError::ReadPastEnd);
        }
        match get_strings_at(file, at, total, row_indices) {
            Err(e) => Err(e),
            Ok((offsets, data)) => make_variable_column(dtype, offsets, data),
        }
    }

    /// Reads the rows of a dictionary column at some places.
    pub fn read_string_dict_column_scattered_mmap(
        &self,
        file: &[u8],
        index: &ColumnIndexEntry,
        row_indices: &[usize],
    ) -> (r: Result<ColumnData, ScanError>)
        ensures
            column_is(r, dict_at(file@, index.data_offset as int, row_indices@)),
    {
        if row_indices.len() == 0 {
            return Ok(no_dictionary());
        }
        let at: u64 = index.data_offset;
        let head: &[u8] = match get_grab(file, at as u128, 16) {
            Err(e) => {
                return Err(e);
            },
            Ok(w) => w,
        };
        let total: u64 = read_u64(head, 0);
        let size: u64 = read_u64(head, 8);
        let (low, high): (usize, usize) = get_places(row_indices);
        let span: u128 = (high - low) as u128 + 1;
        if row_indices.len() > 256 && span <= row_indices.len() as u128 * 4 && span
            <= total as u128 {
            match get_grab(file, at as u128 + 16 + low as u128 * 4, span * 4) {
                Err(e) => {
                    return Err(e);
                },
                Ok(_) => {},
            }
        }
        let indices: Vec<u32> = match get_words_at(file, at as u128 + 16, total, row_indices) {
            Err(e) => {
                return Err(e);
            },
            Ok(v) => v,
        };
        match get_dict_parts(file, at, total, size) {
            Err(e) => Err(e),
            Ok((dict_offsets, dict_data)) => Ok(
                ColumnData::StringDict { indices, dict_offsets, dict_data },
            ),
        }
    }

    fn read_vectors_at(&self, file: &[u8], at: u64, codec: VectorCodec, rows: &[usize]) -> (r: Result<
        ColumnData,
        ScanError,
    >)
        ensures
            column_is(r, vectors_at(self.codec, file@, at as int, codec, rows@)),
    {
        let dim: u32 = match get_dim(file, at, true) {
            Err(e) => {
                return Err(e);
            },
            Ok(d) => d,
        };
        let width: usize = match self.codec.row_width(codec, dim as usize) {
            None => {
                return Err(ScanError::Codec);
            },
            Some(n) => n,
        };
        let n: usize = rows.len();
        assert(0 <= n * width <= 0xffff_ffff_ffff_ffff * 0xffff_ffff_ffff_ffff) by (
        nonlinear_arith)
            requires
                0 <= n <= 0xffff_ffff_ffff_ffff,
                0 <= width <= 0xffff_ffff_ffff_ffff,
        ;
        if n as u128 * width as u128 > usize::MAX as u128 {
            return Err(ScanError::LengthOverflow);
        }
        match get_chunks(file, at as u128 + 12, width, rows) {
            Err(e) => Err(e),
            Ok(data) => Ok(ColumnData::QuantizedList { data, dim, codec }),
        }
    }

    /// Reads the rows of a column at some places.
    pub fn read_column_scattered_mmap(
        &self,
        file: &[u8],
        index: &ColumnIndexEntry,
        dtype: ColumnType,
        row_indices: &[usize],
    ) -> (r: Result<ColumnData, ScanError>)
        ensures
            column_is(r, column_at(self.codec, file@, *index, dtype, row_indices@)),
    {
        let at: u64 = index.data_offset;
        let n: usize = row_indices.len();
        if dtype.is_int() || dtype.is_float() {
            let w: Vec<u8> = match Self::read_numeric_scattered_optimized(
                file,
                index,
                row_indices,
            ) {
                Err(e) => {
                    return Err(e);
                },
                Ok(w) => w,
            };
            proof {
                chunks_len(file@, at + 8, 8, row_indices@);
            }
            assert(n * 8 <= w.len());
            if dtype.is_int() {
                let v: Vec<i64> = bytes_as_i64_slice(w.as_slice(), n);
                assert(v@ =~= int_words(w@, n as int));
                return Ok(ColumnData::Int64(v));
            }
            let v: Vec<F64> = bytes_as_f64_slice(w.as_slice(), n);
            assert(v@ =~= real_words(w@, n as int));
            return Ok(ColumnData::Float64(v));
        }
        match dtype {
            ColumnType::String | ColumnType::Binary | ColumnType::Blob => {
                self.read_variable_column_scattered_mmap(file, index, dtype, row_indices)
            },
            ColumnType::Bool => {
                if index.data_length < 8 {
                    return Err(ScanError::Corrupt);
                }
                let len: u64 = index.data_length - 8;
                let bytes: u128 = (len as u128 + 7) / 8;
                if bytes == 0 {
                    let mut zero: Vec<u8> = Vec::new();
                    zero.push(0);
                    assert(zero@ =~= seq![0u8]);
                    return Ok(get_bits_at(zero.as_slice(), row_indices));
                }
                match get_grab(file, at as u128 + 8, bytes) {
                    Err(e) => Err(e),
                    Ok(w) => Ok(get_bits_at(w, row_indices)),
                }
            },
            ColumnType::StringDict => self.read_string_dict_column_scattered_mmap(
                file,
                index,
                row_indices,
            ),
            ColumnType::FixedList => match Self::read_fixed_scattered_optimized(
                file,
                index,
                row_indices,
                4,
            ) {
                Err(e) => Err(e),
                Ok((data, dim)) => Ok(ColumnData::FixedList { data, dim }),
            },
            ColumnType::Float16List => match Self::read_fixed_scattered_optimized(
                file,
                index,
                row_indices,
                2,
            ) {
                Err(e) => Err(e),
                Ok((data, dim)) => Ok(ColumnData::Float16List { data, dim }),
            },
            _ => match dtype.vector_codec() {
                Some(codec) => self.read_vectors_at(file, at, codec, row_indices),
                None => Ok(ColumnData::Int64(zero_ints(n))),
            },
        }
    }
}

} // verus!
