//! Reading columns that stand on their own in a file: a range of rows, or rows at given places.

use vstd::prelude::*;
use vstd::slice::{slice_subrange, slice_to_vec};

use crate::bytes::{
    bytes_as_i64_slice, bytes_as_u32_slice, i64_le, read_u32, read_u64, u32_le, u64_le,
};
use crate::codec::ColumnCodec;
use crate::column::{ColumnData, ColumnSeq, VectorCodec};
use crate::column_ops::{
    codec_of, create_default_column, default_column, picked, rows_of_column, sliced,
};
use crate::double::F64;
use crate::model::{is_float, is_int, ColumnType, ScanError};
use crate::numeric::{bytes_as_f64_slice, f64_le, min2};
use crate::storage::OnDemandStorage;

verus! {

/// Where a column stands in a file.
#[derive(Clone, Copy, Debug, PartialEq, Eq, Structural)]
pub struct ColumnIndexEntry {
    pub data_offset: u64,
    pub data_length: u64,
}

/// `n` bytes of the file from byte `at` on.
pub open spec fn grab(file: Seq<u8>, at: int, n: int) -> Result<Seq<u8>, ScanError> {
    if at + n <= file.len() {
        Ok(file.subrange(at, at + n))
    } else {
        Err(ScanError::ReadPastEnd)
    }
}

pub(crate) fn get_grab(file: &[u8], at: u128, n: u128) -> (r: Result<&[u8], ScanError>)
    requires
        at <= 0x4000_0000_0000_0000_0000_0000_0000_0000,
        n <= 0x4000_0000_0000_0000_0000_0000_0000_0000,
    ensures
        match r {
            Err(e) => grab(file@, at as int, n as int) == Err::<Seq<u8>, ScanError>(e),
            Ok(s) => grab(file@, at as int, n as int) == Ok::<Seq<u8>, ScanError>(s@) && s@.len()
                == n,
        },
{
    if at + n <= file.len() as u128 {
        Ok(slice_subrange(file, at as usize, (at + n) as usize))
    } else {
        Err(ScanError::ReadPastEnd)
    }
}

/// The first `n` signed double words.
pub open spec fn int_words(s: Seq<u8>, n: int) -> Seq<i64> {
    Seq::new(n as nat, |i: int| i64_le(s, i * 8) as i64)
}

/// The first `n` doubles.
pub open spec fn real_words(s: Seq<u8>, n: int) -> Seq<F64> {
    Seq::new(n as nat, |i: int| f64_le(s, i * 8))
}

/// The first `n` words.
pub open spec fn index_words(s: Seq<u8>, n: int) -> Seq<u32> {
    Seq::new(n as nat, |i: int| u32_le(s, i * 4) as u32)
}

/// The first `n` words as offsets.
pub open spec fn offset_words(s: Seq<u8>, n: int) -> Seq<u64> {
    Seq::new(n as nat, |i: int| u32_le(s, i * 4) as u64)
}

pub(crate) fn get_offset_words(s: &[u8], n: usize) -> (r: Vec<u64>)
    requires
        n * 4 <= s.len(),
    ensures
        r@ == offset_words(s@, n as int),
{
    let mut out: Vec<u64> = Vec::with_capacity(n);
    let mut i: usize = 0;
    while i < n
        invariant
            i <= n,
            n * 4 <= s.len(),
            out@ =~= offset_words(s@, i as int),
        decreases n - i,
    {
        out.push(read_u32(s, i * 4) as u64);
        i = i + 1;
    }
    out
}

/// A column with strings or bytes, by its type.
pub open spec fn variable_column(kind: ColumnType, offsets: Seq<u64>, data: Seq<u8>) -> Result<
    ColumnSeq,
    ScanError,
> {
    match kind {
        ColumnType::String => Ok(ColumnSeq::String { offsets, data }),
        ColumnType::Binary | ColumnType::Blob => Ok(ColumnSeq::Binary { offsets, data }),
        _ => Err(ScanError::WrongType),
    }
}

pub(crate) fn make_variable_column(kind: ColumnType, offsets: Vec<u64>, data: Vec<u8>) -> (r: Result<
    ColumnData,
    ScanError,
>)
    ensures
        column_is(r, variable_column(kind, offsets@, data@)),
{
    match kind {
        ColumnType::String => Ok(ColumnData::String { offsets, data }),
        ColumnType::Binary | ColumnType::Blob => Ok(ColumnData::Binary { offsets, data }),
        _ => Err(ScanError::WrongType),
    }
}

/// Whether `r` is the column `want`.
pub open spec fn column_is(
    r: Result<ColumnData, ScanError>,
    want: Result<ColumnSeq, ScanError>,
) -> bool {
    match r {
        Err(e) => want == Err::<ColumnSeq, ScanError>(e),
        Ok(col) => want == Ok::<ColumnSeq, ScanError>(col@),
    }
}

/// Whether no offset comes before the first one.
pub open spec fn from_first(offsets: Seq<u64>) -> bool {
    forall|i: int| 0 <= i < offsets.len() ==> offsets[0] <= #[trigger] offsets[i]
}

/// Offsets counted from the first one.
pub open spec fn rebased(offsets: Seq<u64>) -> Seq<u64> {
    Seq::new(offsets.len(), |i: int| (offsets[i] - offsets[0]) as u64)
}

fn rebase(offsets: &Vec<u64>) -> (r: Option<Vec<u64>>)
    requires
        offsets@.len() > 0,
    ensures
        match r {
            None => !from_first(offsets@),
            Some(v) => from_first(offsets@) && v@ == rebased(offsets@),
        },
{
    let base: u64 = offsets[0];
    let mut out: Vec<u64> = Vec::with_capacity(offsets.len());
    let mut i: usize = 0;
    while i < offsets.len()
        invariant
            i <= offsets@.len(),
            offsets@.len() > 0,
            base == offsets@[0],
            forall|k: int| 0 <= k < i ==> base <= #[trigger] offsets@[k],
            out@ =~= rebased(offsets@).take(i as int),
        decreases offsets@.len() - i,
    {
        if offsets[i] < base {
            assert(offsets@[0] > offsets@[i as int]);
            return None;
        }
        out.push(offsets[i] - base);
        i = i + 1;
    }
    assert(rebased(offsets@).take(offsets@.len() as int) =~= rebased(offsets@));
    Some(out)
}

/// Rows `start..start + count` of a column of strings or bytes: a count, one offset more than that,
/// the length of the data, the data. Beyond the column there is an empty one of strings.
pub open spec fn variable_range(
    file: Seq<u8>,
    at: int,
    kind: ColumnType,
    start: int,
    count: int,
) -> Result<ColumnSeq, ScanError> {
    match grab(file, at, 8) {
        Err(e) => Err(e),
        Ok(head) => {
            let total = u64_le(head, 0) as int;
            if start >= total {
                Ok(ColumnSeq::String { offsets: seq![0u64], data: Seq::empty() })
            } else {
                let n = min2(count, total - start);
                match grab(file, at + 8 + start * 4, (n + 1) * 4) {
                    Err(e) => Err(e),
                    Ok(words) => {
                        let offsets = offset_words(words, n + 1);
                        let len = offsets[n] - offsets[0];
                        if len < 0 {
                            Err(ScanError::Corrupt)
                        } else {
                            let data = if len == 0 {
                                Ok(Seq::empty())
                            } else {
                                grab(file, at + 8 + (total + 1) * 4 + 8 + offsets[0], len)
                            };
                            match data {
                                Err(e) => Err(e),
                                Ok(data) => if from_first(offsets) {
                                    variable_column(kind, rebased(offsets), data)
                                } else {
                                    Err(ScanError::Corrupt)
                                },
                            }
                        }
                    },
                }
            }
        },
    }
}

/// What a dictionary holds: the offsets of its values and their data.
pub open spec fn dict_parts(file: Seq<u8>, at: int, total: int, size: int) -> Result<
    (Seq<u64>, Seq<u8>),
    ScanError,
> {
    let mid = at + 16 + total * 4;
    match grab(file, mid, size * 4) {
        Err(e) => Err(e),
        Ok(words) => match grab(file, mid + size * 4, 8) {
            Err(e) => Err(e),
            Ok(head) => {
                let len = u64_le(head, 0) as int;
                if len == 0 {
                    Ok((offset_words(words, size), Seq::empty()))
                } else {
                    match grab(file, mid + size * 4 + 8, len) {
                        Err(e) => Err(e),
                        Ok(data) => Ok((offset_words(words, size), data)),
                    }
                }
            },
        },
    }
}

pub(crate) fn get_dict_parts(file: &[u8], at: u64, total: u64, size: u64) -> (r: Result<
    (Vec<u64>, Vec<u8>),
    ScanError,
>)
    ensures
        match r {
            Err(e) => dict_parts(file@, at as int, total as int, size as int) == Err::<
                (Seq<u64>, Seq<u8>),
                ScanError,
            >(e),
            Ok((offsets, data)) => dict_parts(file@, at as int, total as int, size as int) == Ok::<
                (Seq<u64>, Seq<u8>),
                ScanError,
            >((offsets@, data@)),
        },
{
    let mid: u128 = at as u128 + 16 + total as u128 * 4;
    let words: &[u8] = match get_grab(file, mid, size as u128 * 4) {
        Err(e) => {
            return Err(e);
        },
        Ok(w) => w,
    };
    let head: &[u8] = match get_grab(file, mid + size as u128 * 4, 8) {
        Err(e) => {
            return Err(e);
        },
        Ok(w) => w,
    };
    let len: u64 = read_u64(head, 0);
    assert(size * 4 <= words.len());
    let offsets: Vec<u64> = get_offset_words(words, size as usize);
    if len == 0 {
        let none: Vec<u8> = Vec::new();
        assert(none@ =~= Seq::empty());
        return Ok((offsets, none));
    }
    match get_grab(file, mid + size as u128 * 4 + 8, len as u128) {
        Err(e) => Err(e),
        Ok(w) => Ok((offsets, slice_to_vec(w))),
    }
}

/// Rows `start..start + count` of a dictionary column.
pub open spec fn dict_range(file: Seq<u8>, at: int, start: int, count: int) -> Result<
    ColumnSeq,
    ScanError,
> {
    match grab(file, at, 16) {
        Err(e) => Err(e),
        Ok(head) => {
            let total = u64_le(head, 0) as int;
            let size = u64_le(head, 8) as int;
            if start >= total {
                Ok(
                    ColumnSeq::StringDict {
                        indices: Seq::empty(),
                        dict_offsets: seq![0u64],
                        dict_data: Seq::empty(),
                    },
                )
            } else {
                let n = min2(count, total - start);
                match grab(file, at + 16 + start * 4, n * 4) {
                    Err(e) => Err(e),
                    Ok(words) => match dict_parts(file, at, total, size) {
                        Err(e) => Err(e),
                        Ok((dict_offsets, dict_data)) => Ok(
                            ColumnSeq::StringDict {
                                indices: index_words(words, n),
                                dict_offsets,
                                dict_data,
                            },
                        ),
                    },
                }
            }
        },
    }
}

/// The dimension of a column of lists; `strict` tells whether it has to be there.
pub open spec fn dim_of(file: Seq<u8>, at: int, strict: bool) -> Result<u32, ScanError> {
    match grab(file, at + 8, 4) {
        Err(e) => if strict {
            Err(e)
        } else {
            Ok(0)
        },
        Ok(w) => Ok(u32_le(w, 0) as u32),
    }
}

pub(crate) fn get_dim(file: &[u8], at: u64, strict: bool) -> (r: Result<u32, ScanError>)
    ensures
        r == dim_of(file@, at as int, strict),
{
    match get_grab(file, at as u128 + 8, 4) {
        Err(e) => if strict {
            Err(e)
        } else {
            Ok(0)
        },
        Ok(w) => Ok(read_u32(w, 0)),
    }
}

/// Bytes of the file, none where none are asked for.
pub open spec fn grab_some(file: Seq<u8>, at: int, n: int) -> Result<Seq<u8>, ScanError> {
    if n == 0 {
        Ok(Seq::empty())
    } else {
        grab(file, at, n)
    }
}

fn get_grab_some(file: &[u8], at: u128, n: u128) -> (r: Result<Vec<u8>, ScanError>)
    requires
        at <= 0x4000_0000_0000_0000_0000_0000_0000_0000,
        n <= 0x4000_0000_0000_0000_0000_0000_0000_0000,
    ensures
        match r {
            Err(e) => grab_some(file@, at as int, n as int) == Err::<Seq<u8>, ScanError>(e),
            Ok(v) => grab_some(file@, at as int, n as int) == Ok::<Seq<u8>, ScanError>(v@),
        },
{
    if n == 0 {
        let none: Vec<u8> = Vec::new();
        assert(none@ =~= Seq::empty());
        return Ok(none);
    }
    match get_grab(file, at, n) {
        Err(e) => Err(e),
        Ok(w) => Ok(slice_to_vec(w)),
    }
}

/// The bytes that a vector takes.
pub open spec fn vector_width<C: ColumnCodec>(c: C, codec: VectorCodec, dim: u32) -> Result<
    int,
    ScanError,
> {
    match c.width(codec, dim as nat) {
        None => Err(ScanError::Codec),
        Some(n) => Ok(n as int),
    }
}

/// Rows `start..start + count` of a column of vectors.
pub open spec fn vector_range<C: ColumnCodec>(
    c: C,
    file: Seq<u8>,
    at: int,
    codec: VectorCodec,
    start: int,
    count: int,
) -> Result<ColumnSeq, ScanError> {
    match dim_of(file, at, true) {
        Err(e) => Err(e),
        Ok(dim) => match vector_width(c, codec, dim) {
            Err(e) => Err(e),
            Ok(n) => if count * n > usize::MAX {
                Err(ScanError::LengthOverflow)
            } else {
                match grab_some(file, at + 12 + start * n, count * n) {
                    Err(e) => Err(e),
                    Ok(data) => Ok(ColumnSeq::QuantizedList { data, dim, codec }),
                }
            },
        },
    }
}

/// Rows `start..start + count` of a column.
pub open spec fn column_range<C: ColumnCodec>(
    c: C,
    file: Seq<u8>,
    at: int,
    kind: ColumnType,
    start: int,
    count: int,
) -> Result<ColumnSeq, ScanError> {
    if is_int(kind) {
        match grab(file, at + 8 + start * 8, count * 8) {
            Err(e) => Err(e),
            Ok(w) => Ok(ColumnSeq::Int64(int_words(w, count))),
        }
    } else if is_float(kind) {
        match grab(file, at + 8 + start * 8, count * 8) {
            Err(e) => Err(e),
            Ok(w) => Ok(ColumnSeq::Float64(real_words(w, count))),
        }
    } else {
        match kind {
            ColumnType::Bool => match grab(
                file,
                at + 8 + start / 8,
                (start + count + 7) / 8 - start / 8,
            ) {
                Err(e) => Err(e),
                Ok(w) => Ok(ColumnSeq::Bool { data: w, len: count as usize }),
            },
            ColumnType::String | ColumnType::Binary | ColumnType::Blob => variable_range(
                file,
                at,
                kind,
                start,
                count,
            ),
            ColumnType::StringDict => dict_range(file, at, start, count),
            ColumnType::FixedList => {
                let dim = dim_of(file, at, false)->Ok_0;
                match grab_some(file, at + 12 + start * (dim * 4), count * (dim * 4)) {
                    Err(e) => Err(e),
                    Ok(data) => Ok(ColumnSeq::FixedList { data, dim }),
                }
            },
            ColumnType::Float16List => {
                let dim = dim_of(file, at, false)->Ok_0;
                match grab_some(file, at + 12 + start * (dim * 2), count * (dim * 2)) {
                    Err(e) => Err(e),
                    Ok(data) => Ok(ColumnSeq::Float16List { data, dim }),
                }
            },
            _ => match codec_of(kind) {
                Some(codec) => vector_range(c, file, at, codec, start, count),
                None => Ok(ColumnSeq::Int64(Seq::new(count as nat, |i: int| 0i64))),
            },
        }
    }
}

pub(crate) fn zero_ints(n: usize) -> (r: Vec<i64>)
    ensures
        r@ == Seq::new(n as nat, |i: int| 0i64),
{
    let mut out: Vec<i64> = Vec::new();
    let mut i: usize = 0;
    while i < n
        invariant
            i <= n,
            out@ =~= Seq::new(i as nat, |k: int| 0i64),
        decreases n - i,
    {
        out.push(0);
        i = i + 1;
    }
    out
}

/// A product of two lengths, kept within reach.
fn times(a: usize, b: u64) -> (r: u128)
    requires
        b <= 0x4_0000_0000,
    ensures
        r == a * b,
        r <= 0x4_0000_0000_0000_0000_0000_0000,
{
    assert(0 <= a * b <= 0xffff_ffff_ffff_ffff * 0x4_0000_0000) by (nonlinear_arith)
        requires
            0 <= a <= 0xffff_ffff_ffff_ffff,
            0 <= b <= 0x4_0000_0000,
    ;
    a as u128 * b as u128
}

impl<C: ColumnCodec> OnDemandStorage<C> {
    /// Reads rows of a column of strings or bytes.
    pub fn read_variable_column_range_mmap(
        &self,
        file: &[u8],
        index: &ColumnIndexEntry,
        dtype: ColumnType,
        start_row: usize,
        row_count: usize,
    ) -> (r: Result<ColumnData, ScanError>)
        ensures
            column_is(
                r,
                variable_range(
                    file@,
                    index.data_offset as int,
                    dtype,
                    start_row as int,
                    row_count as int,
                ),
            ),
    {
        let at: u128 = index.data_offset as u128;
        let head: &[u8] = match get_grab(file, at, 8) {
            Err(e) => {
                return Err(e);
            },
            Ok(w) => w,
        };
        let total: u64 = read_u64(head, 0);
        if start_row as u64 >= total {
            let mut offsets: Vec<u64> = Vec::new();
            offsets.push(0);
            let data: Vec<u8> = Vec::new();
            assert(offsets@ =~= seq![0u64]);
            assert(data@ =~= Seq::empty());
            return Ok(ColumnData::String { offsets, data });
        }
        let left: u64 = total - start_row as u64;
        let n: u64 = if (row_count as u64) < left {
            row_count as u64
        } else {
            left
        };
        let words: &[u8] = match get_grab(
            file,
            at + 8 + start_row as u128 * 4,
            (n as u128 + 1) * 4,
        ) {
            Err(e) => {
                return Err(e);
            },
            Ok(w) => w,
        };
        assert((n + 1) * 4 <= words.len());
        let offsets: Vec<u64> = get_offset_words(words, (n + 1) as usize);
        let first: u64 = offsets[0];
        let last: u64 = offsets[n as usize];
        if last < first {
            return Err(ScanError::Corrupt);
        }
        let data: Vec<u8> = match get_grab_some(
            file,
            at + 8 + (total as u128 + 1) * 4 + 8 + first as u128,
            (last - first) as u128,
        ) {
            Err(e) => {
                return Err(e);
            },
            Ok(v) => v,
        };
        match rebase(&offsets) {
            None => Err(ScanError::Corrupt),
            Some(o) => make_variable_column(dtype, o, data),
        }
    }

    /// Reads rows of a dictionary column.
    pub fn read_string_dict_column_range_mmap(
        &self,
        file: &[u8],
        index: &ColumnIndexEntry,
        start_row: usize,
        row_count: usize,
    ) -> (r: Result<ColumnData, ScanError>)
        ensures
            column_is(
                r,
                dict_range(
                    file@,
                    index.data_offset as int,
                    start_row as int,
                    row_count as int,
                ),
            ),
    {
        let at: u128 = index.data_offset as u128;
        let head: &[u8] = match get_grab(file, at, 16) {
            Err(e) => {
                return Err(e);
            },
            Ok(w) => w,
        };
        let total: u64 = read_u64(head, 0);
        let size: u64 = read_u64(head, 8);
        if start_row as u64 >= total {
            return Ok(no_dictionary());
        }
        let left: u64 = total - start_row as u64;
        let n: u64 = if (row_count as u64) < left {
            row_count as u64
        } else {
            left
        };
        let words: &[u8] = match get_grab(file, at + 16 + start_row as u128 * 4, n as u128 * 4) {
            Err(e) => {
                return Err(e);
            },
            Ok(w) => w,
        };
        assert(n * 4 <= words.len());
        let indices: Vec<u32> = bytes_as_u32_slice(words, n as usize);
        assert(indices@ =~= index_words(words@, n as int));
        match get_dict_parts(file, index.data_offset, total, size) {
            Err(e) => Err(e),
            Ok((dict_offsets, dict_data)) => Ok(
                ColumnData::StringDict { indices, dict_offsets, dict_data },
            ),
        }
    }

    fn read_vector_range(
        &self,
        file: &[u8],
        at: u64,
        codec: VectorCodec,
        start: usize,
        count: usize,
    ) -> (r: Result<ColumnData, ScanError>)
        ensures
            column_is(
                r,
                vector_range(self.codec, file@, at as int, codec, start as int, count as int),
            ),
    {
        let dim: u32 = match get_dim(file, at, true) {
            Err(e) => {
                return Err(e);
            },
            Ok(d) => d,
        };
        let width: usize = match self.codec.row_width(codec, dim as usize) {
            None => {
                return Err(ScanError::Codec);
            },
            Some(n) => n,
        };
        assert(0 <= count * width <= 0xffff_ffff_ffff_ffff * 0xffff_ffff_ffff_ffff
            && 0 <= start * width <= 0xffff_ffff_ffff_ffff * 0xffff_ffff_ffff_ffff)
            by (nonlinear_arith)
            requires
                0 <= count <= 0xffff_ffff_ffff_ffff,
                0 <= start <= 0xffff_ffff_ffff_ffff,
                0 <= width <= 0xffff_ffff_ffff_ffff,
        ;
        let len: u128 = count as u128 * width as u128;
        if len > usize::MAX as u128 {
            return Err(ScanError::LengthOverflow);
        }
        let from: u128 = start as u128 * width as u128;
        if len > 0 && from > file.len() as u128 {
            return Err(ScanError::ReadPastEnd);
        }
        let from_or_zero: u128 = if len > 0 {
            from
        } else {
            0
        };
        match get_grab_some(file, at as u128 + 12 + from_or_zero, len) {
            Err(e) => Err(e),
            Ok(data) => Ok(ColumnData::QuantizedList { data, dim, codec }),
        }
    }

    /// Reads rows of a column.
    pub fn read_column_range_mmap(
        &self,
        file: &[u8],
        index: &ColumnIndexEntry,
        dtype: ColumnType,
        start_row: usize,
        row_count: usize,
    ) -> (r: Result<ColumnData, ScanError>)
        ensures
            column_is(
                r,
                column_range(
                    self.codec,
                    file@,
                    index.data_offset as int,
                    dtype,
                    start_row as int,
                    row_count as int,
                ),
            ),
    {
        let at: u64 = index.data_offset;
        if dtype.is_int() || dtype.is_float() {
            let w: &[u8] = match get_grab(
                file,
                at as u128 + 8 + start_row as u128 * 8,
                row_count as u128 * 8,
            ) {
                Err(e) => {
                    return Err(e);
                },
                Ok(w) => w,
            };
            assert(row_count * 8 <= w.len());
            if dtype.is_int() {
                let v: Vec<i64> = bytes_as_i64_slice(w, row_count);
                assert(v@ =~= int_words(w@, row_count as int));
                return Ok(ColumnData::Int64(v));
            }
            let v: Vec<F64> = bytes_as_f64_slice(w, row_count);
            assert(v@ =~= real_words(w@, row_count as int));
            return Ok(ColumnData::Float64(v));
        }
        match dtype {
            ColumnType::Bool => {
                let first: u128 = start_row as u128 / 8;
                let last: u128 = (start_row as u128 + row_count as u128 + 7) / 8;
                match get_grab(file, at as u128 + 8 + first, last - first) {
                    Err(e) => Err(e),
                    Ok(w) => Ok(ColumnData::Bool { data: slice_to_vec(w), len: row_count }),
                }
            },
            ColumnType::String | ColumnType::Binary | ColumnType::Blob => {
                self.read_variable_column_range_mmap(file, index, dtype, start_row, row_count)
            },
            ColumnType::StringDict => self.read_string_dict_column_range_mmap(
                file,
                index,
                start_row,
                row_count,
            ),
            ColumnType::FixedList => {
                let dim: u32 = match get_dim(file, at, false) {
                    Err(e) => {
                        return Err(e);
                    },
                    Ok(d) => d,
                };
                let width: u64 = dim as u64 * 4;
                match get_grab_some(
                    file,
                    at as u128 + 12 + times(start_row, width),
                    times(row_count, width),
                ) {
                    Err(e) => Err(e),
                    Ok(data) => Ok(ColumnData::FixedList { data, dim }),
                }
            },
            ColumnType::Float16List => {
                let dim: u32 = match get_dim(file, at, false) {
                    Err(e) => {
                        return Err(e);
                    },
                    Ok(d) => d,
                };
                let width: u64 = dim as u64 * 2;
                match get_grab_some(
                    file,
                    at as u128 + 12 + times(start_row, width),
                    times(row_count, width),
                ) {
                    Err(e) => Err(e),
                    Ok(data) => Ok(ColumnData::Float16List { data, dim }),
                }
            },
            _ => match dtype.vector_codec() {
                Some(codec) => self.read_vector_range(file, at, codec, start_row, row_count),
                None => Ok(ColumnData::Int64(zero_ints(row_count))),
            },
        }
    }

    /// The rows of a column that is held in memory, from `start` on.
    pub fn read_column_auto(
        &self,
        col_idx: usize,
        col_type: ColumnType,
        start: usize,
        count: usize,
    ) -> (r: ColumnData)
        ensures
            r@ == if col_idx < self.columns@.len() && rows_of_column(
                self.codec,
                self.columns@[col_idx as int]@,
            ) > 0 {
                sliced(
                    self.codec,
                    self.columns@[col_idx as int]@,
                    start as int,
                    start + count,
                )
            } else {
                default_column(self.codec, col_type, count as int)
            },
    {
        if col_idx < self.columns.len() && self.columns[col_idx].len(&self.codec) > 0 {
            let n: usize = self.columns[col_idx].len(&self.codec);
            let end: usize = if start > usize::MAX - count {
                usize::MAX
            } else {
                start + count
            };
            self.columns[col_idx].slice_range(&self.codec, start, end)
        } else {
            create_default_column(&self.codec, col_type, count)
        }
    }

    /// Rows of a column that is held in memory.
    pub fn read_column_scattered_auto(
        &self,
        col_idx: usize,
        col_type: ColumnType,
        indices: &[usize],
    ) -> (r: ColumnData)
        ensures
            r@ == if col_idx < self.columns@.len() && rows_of_column(
                self.codec,
                self.columns@[col_idx as int]@,
            ) > 0 {
                picked(self.codec, self.columns@[col_idx as int]@, indices@)
            } else {
                default_column(self.codec, col_type, indices@.len() as int)
            },
    {
        if col_idx < self.columns.len() && self.columns[col_idx].len(&self.codec) > 0 {
            self.columns[col_idx].filter_by_indices(&self.codec, indices)
        } else {
            create_default_column(&self.codec, col_type, indices.len())
        }
    }
}

/// A dictionary column without rows.
pub(crate) fn no_dictionary() -> (r: ColumnData)
    ensures
        r@ == (ColumnSeq::StringDict {
            indices: Seq::empty(),
            dict_offsets: seq![0u64],
            dict_data: Seq::empty(),
        }),
{
    let indices: Vec<u32> = Vec::new();
    let mut dict_offsets: Vec<u64> = Vec::new();
    dict_offsets.push(0);
    let dict_data: Vec<u8> = Vec::new();
    assert(indices@ =~= Seq::empty());
    assert(dict_offsets@ =~= seq![0u64]);
    assert(dict_data@ =~= Seq::empty());
    ColumnData::StringDict { indices, dict_offsets, dict_data }
}

} // verus!
