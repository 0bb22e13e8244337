//! Single values of a column, read where they stand.

use vstd::prelude::*;
use vstd::slice::{slice_subrange, slice_to_vec};

use crate::bytes::{
    bit, bitpack_value_at, i64_le, packed_value, read_i64, read_u32, read_u64, test_bit, u32_le,
    u64_le,
};
use crate::codec::ColumnCodec;
use crate::column::{ColumnData, ColumnSeq, DictSeq, StringDictView, VectorCodec};
use crate::column_ops::{gaps, list_rows};
use crate::dict_values::{text_of, text_or_empty};
use crate::double::F64;
use crate::group::{get_tail, tail};
use crate::model::{
    is_float, is_int, ColumnType, ScanError, COL_ENCODING_BITPACK, COL_ENCODING_COMPACT_DICTIONARY,
    COL_ENCODING_FLOAT_DICTIONARY, COL_ENCODING_PLAIN,
};
use crate::numeric::{encoding_of, f64_le, get_encoding, get_tag_len, read_f64, tag_len};

verus! {

/// How the components of a list are stored.
#[derive(Clone, Copy, Debug, PartialEq, Eq, Structural)]
pub enum ListForm {
    Float32,
    Float16,
    Quantized(VectorCodec),
}

/// One value.
#[derive(Debug, PartialEq, Eq)]
pub enum Cell {
    Int(i64),
    Real(F64),
    Text(String),
    Truth(bool),
    Bytes(Vec<u8>),
    List { bytes: Vec<u8>, dim: u32, form: ListForm },
}

/// One value, as sequences.
#[verifier::ext_equal]
pub enum CellSeq {
    Int(i64),
    Real(F64),
    Text(Seq<char>),
    Truth(bool),
    Bytes(Seq<u8>),
    List { bytes: Seq<u8>, dim: u32, form: ListForm },
}

impl View for Cell {
    type V = CellSeq;

    open spec fn view(&self) -> CellSeq {
        match *self {
            Cell::Int(v) => CellSeq::Int(v),
            Cell::Real(v) => CellSeq::Real(v),
            Cell::Text(s) => CellSeq::Text(s@),
            Cell::Truth(b) => CellSeq::Truth(b),
            Cell::Bytes(b) => CellSeq::Bytes(b@),
            Cell::List { bytes, dim, form } => CellSeq::List { bytes: bytes@, dim, form },
        }
    }
}

/// An optional value as sequences.
pub open spec fn cell_view(c: Option<Cell>) -> Option<CellSeq> {
    match c {
        None => None,
        Some(v) => Some(v@),
    }
}

/// Optional values as sequences.
pub open spec fn cells_view(v: Seq<Option<Cell>>) -> Seq<Option<CellSeq>> {
    Seq::new(v.len(), |i: int| cell_view(v[i]))
}

/// What the values of a column are collected as.
#[derive(Clone, Copy, Debug, PartialEq, Eq, Structural)]
pub enum Slot {
    Int,
    Real,
    Text,
    Truth,
    Bytes,
    List,
    Other,
}

/// Where the values of a column in one row group come from.
pub enum Source<'a> {
    /// Plain integers, behind a count.
    Ints(&'a [u8]),
    /// Packed integers.
    Packed(&'a [u8]),
    /// Plain doubles, behind a count.
    Reals(&'a [u8]),
    /// Decoded doubles.
    RealList(Vec<F64>),
    /// Plain strings.
    Texts(&'a [u8]),
    /// A dictionary.
    Dict(StringDictView),
    /// Bits, behind a count.
    Bits(&'a [u8]),
    /// A decoded column; the bytes of one row where it holds quantised vectors.
    Whole { col: ColumnData, width: usize },
    /// Nowhere.
    Nothing,
}

/// Where the values of a column in one row group come from, as sequences.
pub enum SourceSeq {
    Ints(Seq<u8>),
    Packed(Seq<u8>),
    Reals(Seq<u8>),
    RealList(Seq<F64>),
    Texts(Seq<u8>),
    Dict(DictSeq),
    Bits(Seq<u8>),
    Whole { col: ColumnSeq, width: int },
    Nothing,
}

impl<'a> View for Source<'a> {
    type V = SourceSeq;

    open spec fn view(&self) -> SourceSeq {
        match *self {
            Source::Ints(p) => SourceSeq::Ints(p@),
            Source::Packed(p) => SourceSeq::Packed(p@),
            Source::Reals(p) => SourceSeq::Reals(p@),
            Source::RealList(v) => SourceSeq::RealList(v@),
            Source::Texts(p) => SourceSeq::Texts(p@),
            Source::Dict(d) => SourceSeq::Dict(d@),
            Source::Bits(p) => SourceSeq::Bits(p@),
            Source::Whole { col, width } => SourceSeq::Whole { col: col@, width: width as int },
            Source::Nothing => SourceSeq::Nothing,
        }
    }
}

/// Entry `i` of packed integers, behind their count, width and smallest one.
pub open spec fn packed_at(p: Seq<u8>, i: int) -> Option<i64> {
    if p.len() < 17 || i >= u64_le(p, 0) {
        None
    } else {
        packed_value(tail(p, 17), p[8] as int, i64_le(p, 9), i)
    }
}

/// Reads entry `i` of packed integers.
pub fn bitpack_decode_at_idx(p: &[u8], i: usize) -> (r: Option<i64>)
    ensures
        r == packed_at(p@, i as int),
{
    if p.len() < 17 || i as u64 >= read_u64(p, 0) {
        return None;
    }
    bitpack_value_at(get_tail(p, 17), p[8] as usize, read_i64(p, 9), i)
}

/// Whether plain strings have their offsets and the length of their data.
pub open spec fn texts_fit(p: Seq<u8>) -> bool {
    p.len() >= 8 && 8 + (u64_le(p, 0) + 1) * 4 + 8 <= p.len()
}

/// Tests whether plain strings have their offsets and the length of their data.
pub fn do_texts_fit(p: &[u8]) -> (r: bool)
    ensures
        r == texts_fit(p@),
{
    p.len() >= 8 && 8 + (read_u64(p, 0) as u128 + 1) * 4 + 8 <= p.len() as u128
}

/// String `i` of plain strings; nothing where it ends beyond the data.
pub open spec fn text_at(p: Seq<u8>, i: int) -> Result<Option<Seq<u8>>, ScanError> {
    let count = u64_le(p, 0);
    if i >= count {
        Ok(None)
    } else {
        let start = 8 + (count + 1) * 4 + 8;
        let s = u32_le(p, 8 + i * 4);
        let e = u32_le(p, 12 + i * 4);
        if start + e > p.len() {
            Ok(None)
        } else if s > e {
            Err(ScanError::Corrupt)
        } else {
            Ok(Some(p.subrange((start + s) as int, (start + e) as int)))
        }
    }
}

/// Finds string `i` of plain strings.
pub fn get_text_at(p: &[u8], i: usize) -> (r: Result<Option<&[u8]>, ScanError>)
    requires
        texts_fit(p@),
    ensures
        match r {
            Err(e) => text_at(p@, i as int) == Err::<Option<Seq<u8>>, ScanError>(e),
            Ok(None) => text_at(p@, i as int) == Ok::<Option<Seq<u8>>, ScanError>(None),
            Ok(Some(b)) => text_at(p@, i as int) == Ok::<Option<Seq<u8>>, ScanError>(Some(b@)),
        },
{
    let count: u64 = read_u64(p, 0);
    if i as u64 >= count {
        return Ok(None);
    }
    let len: usize = p.len();
    let start: u64 = 8 + (count + 1) * 4 + 8;
    let s: u32 = read_u32(p, 8 + i * 4);
    let e: u32 = read_u32(p, 12 + i * 4);
    if start as u128 + e as u128 > len as u128 {
        return Ok(None);
    }
    if s > e {
        return Err(ScanError::Corrupt);
    }
    Ok(Some(slice_subrange(p, (start + s as u64) as usize, (start + e as u64) as usize)))
}

/// Entry `i` between offsets; nothing where there is none.
pub open spec fn entry_at(offsets: Seq<u64>, data: Seq<u8>, i: int) -> Result<
    Option<Seq<u8>>,
    ScanError,
> {
    if i >= gaps(offsets) {
        Ok(None)
    } else if offsets[i] <= offsets[i + 1] <= data.len() {
        Ok(Some(data.subrange(offsets[i] as int, offsets[i + 1] as int)))
    } else {
        Err(ScanError::Corrupt)
    }
}

fn get_entry_at<'a>(offsets: &Vec<u64>, data: &'a Vec<u8>, i: usize) -> (r: Result<
    Option<&'a [u8]>,
    ScanError,
>)
    ensures
        match r {
            Err(e) => entry_at(offsets@, data@, i as int) == Err::<Option<Seq<u8>>, ScanError>(e),
            Ok(None) => entry_at(offsets@, data@, i as int) == Ok::<Option<Seq<u8>>, ScanError>(
                None,
            ),
            Ok(Some(b)) => entry_at(offsets@, data@, i as int) == Ok::<
                Option<Seq<u8>>,
                ScanError,
            >(Some(b@)),
        },
{
    if offsets.len() == 0 || i >= offsets.len() - 1 {
        return Ok(None);
    }
    let s: u64 = offsets[i];
    let e: u64 = offsets[i + 1];
    if s > e || e > data.len() as u64 {
        return Err(ScanError::Corrupt);
    }
    Ok(Some(slice_subrange(data.as_slice(), s as usize, e as usize)))
}

/// The string of a decoded dictionary that row `i` refers to; nothing where it refers to none.
pub open spec fn dict_entry_at(
    indices: Seq<u32>,
    offsets: Seq<u64>,
    data: Seq<u8>,
    i: int,
) -> Result<Option<Seq<u8>>, ScanError> {
    if i >= indices.len() || indices[i] == 0 || indices[i] > offsets.len() {
        Ok(None)
    } else {
        let d = indices[i] - 1;
        let s = offsets[d] as int;
        let end = if d + 1 < offsets.len() {
            offsets[d + 1] as int
        } else {
            data.len() as int
        };
        let e = if end < data.len() {
            end
        } else {
            data.len() as int
        };
        if s > e {
            Err(ScanError::Corrupt)
        } else {
            Ok(Some(data.subrange(s, e)))
        }
    }
}

fn get_dict_entry_at<'a>(
    indices: &Vec<u32>,
    offsets: &Vec<u64>,
    data: &'a Vec<u8>,
    i: usize,
) -> (r: Result<Option<&'a [u8]>, ScanError>)
    ensures
        ({
            let want = dict_entry_at(indices@, offsets@, data@, i as int);
            match r {
                Err(e) => want == Err::<Option<Seq<u8>>, ScanError>(e),
                Ok(None) => want == Ok::<Option<Seq<u8>>, ScanError>(None),
                Ok(Some(b)) => want == Ok::<Option<Seq<u8>>, ScanError>(Some(b@)),
            }
        }),
{
    if i >= indices.len() || indices[i] == 0 || indices[i] as u64 > offsets.len() as u64 {
        return Ok(None);
    }
    let d: usize = (indices[i] - 1) as usize;
    let s: u64 = offsets[d];
    let len: u64 = data.len() as u64;
    let end: u64 = if d + 1 < offsets.len() {
        offsets[d + 1]
    } else {
        len
    };
    let e: u64 = if end < len {
        end
    } else {
        len
    };
    if s > e {
        return Err(ScanError::Corrupt);
    }
    Ok(Some(slice_subrange(data.as_slice(), s as usize, e as usize)))
}

/// Row `i` of lists of `width` bytes each.
pub open spec fn list_at(data: Seq<u8>, width: int, i: int) -> Option<Seq<u8>> {
    if i < list_rows(data.len() as int, width) {
        Some(data.subrange(i * width, i * width + width))
    } else {
        None
    }
}

fn get_list_at(data: &Vec<u8>, width: u64, i: usize) -> (r: Option<Vec<u8>>)
    ensures
        crate::column::bytes_view(r) == list_at(data@, width as int, i as int),
{
    if width == 0 || i as u64 >= data.len() as u64 / width {
        return None;
    }
    let ghost m = data.len() as int;
    let ghost w = width as int;
    proof {
        assert(0 <= i * w && i * w + w <= m) by (nonlinear_arith)
            requires
                0 <= i < m / w,
                0 < w,
                0 <= m,
        ;
        assert(w <= m) by (nonlinear_arith)
            requires
                0 <= i < m / w,
                0 < w,
                0 <= m,
        ;
    }
    let a: usize = i * width as usize;
    Some(slice_to_vec(slice_subrange(data.as_slice(), a, a + width as usize)))
}

/// An optional text value.
pub open spec fn text_cell(r: Result<Option<Seq<u8>>, ScanError>) -> Result<
    Option<CellSeq>,
    ScanError,
> {
    match r {
        Err(e) => Err(e),
        Ok(None) => Ok(None),
        Ok(Some(b)) => Ok(Some(CellSeq::Text(text_of(b)))),
    }
}

fn make_text_cell(r: Result<Option<&[u8]>, ScanError>) -> (out: Result<Option<Cell>, ScanError>)
    ensures
        cell_result(out) == text_cell(
            match r {
                Err(e) => Err(e),
                Ok(None) => Ok(None),
                Ok(Some(b)) => Ok(Some(b@)),
            },
        ),
{
    match r {
        Err(e) => Err(e),
        Ok(None) => Ok(None),
        Ok(Some(b)) => Ok(Some(Cell::Text(text_or_empty(b)))),
    }
}

/// What reading one value comes to.
pub open spec fn cell_result(r: Result<Option<Cell>, ScanError>) -> Result<
    Option<CellSeq>,
    ScanError,
> {
    match r {
        Err(e) => Err(e),
        Ok(c) => Ok(cell_view(c)),
    }
}

/// Value `i` of a decoded column. Where not `full`, bits and dictionaries are left out.
pub open spec fn whole_cell(slot: Slot, full: bool, col: ColumnSeq, width: int, i: int) -> Result<
    Option<CellSeq>,
    ScanError,
> {
    match (slot, col) {
        (Slot::Int, ColumnSeq::Int64(v)) => Ok(
            if i < v.len() {
                Some(CellSeq::Int(v[i]))
            } else {
                None
            },
        ),
        (Slot::Real, ColumnSeq::Float64(v)) => Ok(
            if i < v.len() {
                Some(CellSeq::Real(v[i]))
            } else {
                None
            },
        ),
        (Slot::Truth, ColumnSeq::Bool { data, len }) => if !full || i >= len {
            Ok(None)
        } else if i / 8 >= data.len() {
            Err(ScanError::Corrupt)
        } else {
            Ok(Some(CellSeq::Truth(bit(data, i))))
        },
        (Slot::Text, ColumnSeq::String { offsets, data }) => text_cell(entry_at(offsets, data, i)),
        (Slot::Text, ColumnSeq::StringDict { indices, dict_offsets, dict_data }) => if full {
            text_cell(dict_entry_at(indices, dict_offsets, dict_data, i))
        } else {
            Ok(None)
        },
        (Slot::Bytes, ColumnSeq::Binary { offsets, data }) => match entry_at(offsets, data, i) {
            Err(e) => Err(e),
            Ok(None) => Ok(None),
            Ok(Some(b)) => Ok(Some(CellSeq::Bytes(b))),
        },
        (Slot::List, ColumnSeq::FixedList { data, dim }) => Ok(
            list_cell(list_at(data, dim * 4, i), dim, ListForm::Float32),
        ),
        (Slot::List, ColumnSeq::Float16List { data, dim }) => Ok(
            list_cell(list_at(data, dim * 2, i), dim, ListForm::Float16),
        ),
        (Slot::List, ColumnSeq::QuantizedList { data, dim, codec }) => Ok(
            list_cell(list_at(data, width, i), dim, ListForm::Quantized(codec)),
        ),
        (Slot::Other, ColumnSeq::Int64(v)) => Ok(
            if i < v.len() {
                Some(CellSeq::Int(v[i]))
            } else {
                None
            },
        ),
        (Slot::Other, ColumnSeq::Float64(v)) => Ok(
            if i < v.len() {
                Some(CellSeq::Real(v[i]))
            } else {
                None
            },
        ),
        (Slot::Other, ColumnSeq::String { offsets, data }) => text_cell(entry_at(offsets, data, i)),
        _ => Ok(None),
    }
}

/// A list value.
pub open spec fn list_cell(bytes: Option<Seq<u8>>, dim: u32, form: ListForm) -> Option<CellSeq> {
    match bytes {
        None => None,
        Some(b) => Some(CellSeq::List { bytes: b, dim, form }),
    }
}

fn make_list_cell(bytes: Option<Vec<u8>>, dim: u32, form: ListForm) -> (r: Option<Cell>)
    ensures
        cell_view(r) == list_cell(crate::column::bytes_view(bytes), dim, form),
{
    match bytes {
        None => None,
        Some(b) => Some(Cell::List { bytes: b, dim, form }),
    }
}

fn int_cell(v: &Vec<i64>, i: usize) -> (r: Option<Cell>)
    ensures
        cell_view(r) == (if i < v@.len() {
            Some(CellSeq::Int(v@[i as int]))
        } else {
            None
        }),
{
    if i < v.len() {
        Some(Cell::Int(v[i]))
    } else {
        None
    }
}

fn real_cell(v: &Vec<F64>, i: usize) -> (r: Option<Cell>)
    ensures
        cell_view(r) == (if i < v@.len() {
            Some(CellSeq::Real(v@[i as int]))
        } else {
            None
        }),
{
    if i < v.len() {
        Some(Cell::Real(v[i]))
    } else {
        None
    }
}

#[verifier::rlimit(40)]
fn get_whole_cell(slot: Slot, full: bool, col: &ColumnData, width: usize, i: usize) -> (r: Result<
    Option<Cell>,
    ScanError,
>)
    ensures
        cell_result(r) == whole_cell(slot, full, col@, width as int, i as int),
{
    match col {
        ColumnData::Int64(v) => if slot == Slot::Int || slot == Slot::Other {
            Ok(int_cell(v, i))
        } else {
            Ok(None)
        },
        ColumnData::Float64(v) => if slot == Slot::Real || slot == Slot::Other {
            Ok(real_cell(v, i))
        } else {
            Ok(None)
        },
        ColumnData::Bool { data, len } => if slot != Slot::Truth || !full || i >= *len {
            Ok(None)
        } else if i / 8 >= data.len() {
            Err(ScanError::Corrupt)
        } else {
            Ok(Some(Cell::Truth(test_bit(data.as_slice(), i))))
        },
        ColumnData::String { offsets, data } => if slot == Slot::Text || slot == Slot::Other {
            make_text_cell(get_entry_at(offsets, data, i))
        } else {
            Ok(None)
        },
        ColumnData::StringDict { indices, dict_offsets, dict_data } => if slot == Slot::Text
            && full {
            make_text_cell(get_dict_entry_at(indices, dict_offsets, dict_data, i))
        } else {
            Ok(None)
        },
        ColumnData::Binary { offsets, data } => if slot == Slot::Bytes {
            match get_entry_at(offsets, data, i) {
                Err(e) => Err(e),
                Ok(None) => Ok(None),
                Ok(Some(b)) => Ok(Some(Cell::Bytes(slice_to_vec(b)))),
            }
        } else {
            Ok(None)
        },
        ColumnData::FixedList { data, dim } => if slot == Slot::List {
            Ok(make_list_cell(get_list_at(data, *dim as u64 * 4, i), *dim, ListForm::Float32))
        } else {
            Ok(None)
        },
        ColumnData::Float16List { data, dim } => if slot == Slot::List {
            Ok(make_list_cell(get_list_at(data, *dim as u64 * 2, i), *dim, ListForm::Float16))
        } else {
            Ok(None)
        },
        ColumnData::QuantizedList { data, dim, codec } => if slot == Slot::List {
            Ok(
                make_list_cell(
                    get_list_at(data, width as u64, i),
                    *dim,
                    ListForm::Quantized(*codec),
                ),
            )
        } else {
            Ok(None)
        },
    }
}

/// Value `i` of a source.
#[verifier::opaque]
pub open spec fn cell_at(src: SourceSeq, slot: Slot, full: bool, i: int) -> Result<
    Option<CellSeq>,
    ScanError,
> {
    match src {
        SourceSeq::Ints(p) => Ok(
            if 16 + i * 8 <= p.len() {
                Some(CellSeq::Int(i64_le(p, 8 + i * 8) as i64))
            } else {
                None
            },
        ),
        SourceSeq::Packed(p) => Ok(
            match packed_at(p, i) {
                None => None,
                Some(v) => Some(CellSeq::Int(v)),
            },
        ),
        SourceSeq::Reals(p) => Ok(
            if 16 + i * 8 <= p.len() {
                Some(CellSeq::Real(f64_le(p, 8 + i * 8)))
            } else {
                None
            },
        ),
        SourceSeq::RealList(v) => Ok(
            if i < v.len() {
                Some(CellSeq::Real(v[i]))
            } else {
                None
            },
        ),
        SourceSeq::Texts(p) => text_cell(text_at(p, i)),
        SourceSeq::Dict(d) => Ok(
            if i < d.indices.len() {
                match d.value(d.indices[i] as int) {
                    None => None,
                    Some(b) => Some(CellSeq::Text(text_of(b))),
                }
            } else {
                None
            },
        ),
        SourceSeq::Bits(p) => Ok(
            if 8 + i / 8 < p.len() {
                Some(CellSeq::Truth(bit(p, 64 + i)))
            } else {
                None
            },
        ),
        SourceSeq::Whole { col, width } => whole_cell(slot, full, col, width, i),
        SourceSeq::Nothing => Ok(None),
    }
}

/// Whether plain strings can be read.
pub open spec fn source_ok(src: SourceSeq) -> bool {
    src matches SourceSeq::Texts(p) ==> texts_fit(p)
}

/// Reads value `i` of a source.
pub fn get_cell_at(src: &Source, slot: Slot, full: bool, i: usize) -> (r: Result<
    Option<Cell>,
    ScanError,
>)
    requires
        source_ok(src@),
    ensures
        cell_result(r) == cell_at(src@, slot, full, i as int),
{
    reveal(cell_at);
    match src {
        Source::Ints(p) => if p.len() >= 16 && i <= (p.len() - 16) / 8 {
            Ok(Some(Cell::Int(read_i64(p, 8 + i * 8))))
        } else {
            Ok(None)
        },
        Source::Packed(p) => match bitpack_decode_at_idx(p, i) {
            None => Ok(None),
            Some(v) => Ok(Some(Cell::Int(v))),
        },
        Source::Reals(p) => if p.len() >= 16 && i <= (p.len() - 16) / 8 {
            Ok(Some(Cell::Real(read_f64(p, 8 + i * 8))))
        } else {
            Ok(None)
        },
        Source::RealList(v) => Ok(real_cell(v, i)),
        Source::Texts(p) => make_text_cell(get_text_at(p, i)),
        Source::Dict(d) => if i < d.indices.len() {
            match d.value(d.indices[i]) {
                None => Ok(None),
                Some(b) => Ok(Some(Cell::Text(text_or_empty(b.as_slice())))),
            }
        } else {
            Ok(None)
        },
        Source::Bits(p) => if p.len() >= 8 && i / 8 < p.len() - 8 {
            Ok(Some(Cell::Truth(test_bit(get_tail(p, 8), i))))
        } else {
            Ok(None)
        },
        Source::Whole { col, width } => get_whole_cell(slot, full, col, *width, i),
        Source::Nothing => Ok(None),
    }
}

/// The values of some rows, nothing for those with a null mark.
pub open spec fn cells_of(
    src: SourceSeq,
    slot: Slot,
    full: bool,
    nulls: Seq<u8>,
    rows: Seq<usize>,
) -> Result<Seq<Option<CellSeq>>, ScanError>
    decreases rows.len(),
{
    if rows.len() == 0 {
        Ok(Seq::empty())
    } else {
        match cells_of(src, slot, full, nulls, rows.drop_last()) {
            Err(e) => Err(e),
            Ok(before) => if bit(nulls, rows.last() as int) {
                Ok(before.push(None))
            } else {
                match cell_at(src, slot, full, rows.last() as int) {
                    Err(e) => Err(e),
                    Ok(v) => Ok(before.push(v)),
                }
            },
        }
    }
}

proof fn cells_failed(
    src: SourceSeq,
    slot: Slot,
    full: bool,
    nulls: Seq<u8>,
    rows: Seq<usize>,
    j: int,
)
    requires
        0 <= j <= rows.len(),
        cells_of(src, slot, full, nulls, rows.take(j)) is Err,
    ensures
        cells_of(src, slot, full, nulls, rows) == cells_of(src, slot, full, nulls, rows.take(j)),
    decreases rows.len() - j,
{
    if j < rows.len() {
        assert(rows.take(j + 1).drop_last() =~= rows.take(j));
        cells_failed(src, slot, full, nulls, rows, j + 1);
    } else {
        assert(rows.take(j) =~= rows);
    }
}

/// What reading several values comes to.
pub open spec fn cells_result(r: Result<Vec<Option<Cell>>, ScanError>) -> Result<
    Seq<Option<CellSeq>>,
    ScanError,
> {
    match r {
        Err(e) => Err(e),
        Ok(v) => Ok(cells_view(v@)),
    }
}

/// Reads the values of some rows.
pub fn get_cells(src: &Source, slot: Slot, full: bool, nulls: &[u8], rows: &Vec<usize>) -> (r: Result<
    Vec<Option<Cell>>,
    ScanError,
>)
    requires
        source_ok(src@),
    ensures
        cells_result(r) == cells_of(src@, slot, full, nulls@, rows@),
        r matches Ok(v) ==> v@.len() == rows@.len(),
{
    let mut out: Vec<Option<Cell>> = Vec::with_capacity(rows.len());
    let mut i: usize = 0;
    assert(rows@.take(0) =~= Seq::empty());
    assert(cells_view(out@) =~= Seq::empty());
    while i < rows.len()
        invariant
            i <= rows@.len(),
            out@.len() == i,
            source_ok(src@),
            cells_of(src@, slot, full, nulls@, rows@.take(i as int)) == Ok::<
                Seq<Option<CellSeq>>,
                ScanError,
            >(cells_view(out@)),
        decreases rows@.len() - i,
    {
        let row: usize = rows[i];
        let ghost before = cells_view(out@);
        proof {
            assert(rows@.take(i + 1).drop_last() =~= rows@.take(i as int));
            assert(rows@.take(i + 1).last() == row);
        }
        if test_bit(nulls, row) {
            out.push(None);
            assert(cells_view(out@) =~= before.push(None));
        } else {
            match get_cell_at(src, slot, full, row) {
                Err(e) => {
                    proof {
                        cells_failed(src@, slot, full, nulls@, rows@, i + 1);
                    }
                    return Err(e);
                },
                Ok(v) => {
                    let ghost now = cell_view(v);
                    out.push(v);
                    assert(cells_view(out@) =~= before.push(now));
                },
            }
        }
        i = i + 1;
    }
    assert(rows@.take(rows@.len() as int) =~= rows@);
    Ok(out)
}

/// How the values of a column can be read where they stand.
pub enum PickSeq {
    /// From this source.
    From(SourceSeq),
    /// Its strings are cut off.
    BadTexts,
    /// Its dictionary of doubles cannot be read.
    BadReals,
    /// Its dictionary of strings cannot be read.
    BadDict,
    /// Not at all: it has to be decoded.
    Rest,
}

/// How the values of a column can be read where they stand.
pub enum Pick<'a> {
    From(Source<'a>),
    BadTexts,
    BadReals,
    BadDict,
    Rest,
}

impl<'a> View for Pick<'a> {
    type V = PickSeq;

    open spec fn view(&self) -> PickSeq {
        match *self {
            Pick::From(s) => PickSeq::From(s@),
            Pick::BadTexts => PickSeq::BadTexts,
            Pick::BadReals => PickSeq::BadReals,
            Pick::BadDict => PickSeq::BadDict,
            Pick::Rest => PickSeq::Rest,
        }
    }
}

/// The payload behind the tag of a column; nothing where the tag is missing.
pub open spec fn payload_of(version: u8, col: Seq<u8>) -> Seq<u8> {
    if tag_len(version) <= col.len() {
        tail(col, tag_len(version))
    } else {
        Seq::empty()
    }
}

/// How the values of a column can be read where they stand.
#[verifier::opaque]
pub open spec fn pick<C: ColumnCodec>(c: C, kind: ColumnType, version: u8, col: Seq<u8>) -> PickSeq {
    let encoding = encoding_of(version, col);
    let payload = payload_of(version, col);
    if encoding == COL_ENCODING_PLAIN && is_int(kind) && payload.len() >= 8 {
        PickSeq::From(SourceSeq::Ints(payload))
    } else if encoding == COL_ENCODING_PLAIN && is_float(kind) && payload.len() >= 8 {
        PickSeq::From(SourceSeq::Reals(payload))
    } else if encoding == COL_ENCODING_FLOAT_DICTIONARY && is_float(kind) {
        match c.decoded(true, col, kind) {
            Some((ColumnSeq::Float64(v), _)) => PickSeq::From(SourceSeq::RealList(v)),
            _ => PickSeq::BadReals,
        }
    } else if encoding == COL_ENCODING_PLAIN && kind is String && payload.len() >= 8 {
        if texts_fit(payload) {
            PickSeq::From(SourceSeq::Texts(payload))
        } else {
            PickSeq::BadTexts
        }
    } else if (encoding == COL_ENCODING_PLAIN || encoding == COL_ENCODING_COMPACT_DICTIONARY)
        && kind is StringDict {
        match c.dictionary(encoding == COL_ENCODING_COMPACT_DICTIONARY, payload) {
            None => PickSeq::BadDict,
            Some(d) => PickSeq::From(SourceSeq::Dict(d)),
        }
    } else if encoding == COL_ENCODING_BITPACK && is_int(kind) {
        PickSeq::From(SourceSeq::Packed(payload))
    } else if encoding == COL_ENCODING_PLAIN && kind is Bool && payload.len() >= 8 {
        PickSeq::From(SourceSeq::Bits(payload))
    } else {
        PickSeq::Rest
    }
}

/// Finds out how the values of a column can be read where they stand.
pub fn get_pick<'a, C: ColumnCodec>(c: &C, kind: ColumnType, version: u8, col: &'a [u8]) -> (r: Pick<
    'a,
>)
    ensures
        r@ == pick(*c, kind, version, col@),
        r@ matches PickSeq::From(s) ==> source_ok(s),
{
    reveal(pick);
    let encoding: u8 = get_encoding(version, col);
    let off: usize = get_tag_len(version);
    let payload: &'a [u8] = if off <= col.len() {
        get_tail(col, off)
    } else {
        slice_subrange(col, 0, 0)
    };
    assert(payload@ =~= payload_of(version, col@));
    if encoding == COL_ENCODING_PLAIN && kind.is_int() && payload.len() >= 8 {
        return Pick::From(Source::Ints(payload));
    }
    if encoding == COL_ENCODING_PLAIN && kind.is_float() && payload.len() >= 8 {
        return Pick::From(Source::Reals(payload));
    }
    if encoding == COL_ENCODING_FLOAT_DICTIONARY && kind.is_float() {
        return match c.read_column(true, col, kind) {
            Some((ColumnData::Float64(v), _)) => Pick::From(Source::RealList(v)),
            _ => Pick::BadReals,
        };
    }
    if encoding == COL_ENCODING_PLAIN && kind == ColumnType::String && payload.len() >= 8 {
        return if do_texts_fit(payload) {
            Pick::From(Source::Texts(payload))
        } else {
            Pick::BadTexts
        };
    }
    if (encoding == COL_ENCODING_PLAIN || encoding == COL_ENCODING_COMPACT_DICTIONARY) && kind
        == ColumnType::StringDict {
        return match c.read_dictionary(encoding == COL_ENCODING_COMPACT_DICTIONARY, payload) {
            None => Pick::BadDict,
            Some(d) => Pick::From(Source::Dict(d)),
        };
    }
    if encoding == COL_ENCODING_BITPACK && kind.is_int() {
        return Pick::From(Source::Packed(payload));
    }
    if encoding == COL_ENCODING_PLAIN && kind == ColumnType::Bool && payload.len() >= 8 {
        return Pick::From(Source::Bits(payload));
    }
    Pick::Rest
}

} // verus!
