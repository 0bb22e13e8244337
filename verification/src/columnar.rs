//! Arrow arrays and record batches, which are built by the `arrow` crate.

use std::sync::Arc;

use arrow::array::{
    make_array, new_null_array, Array, ArrayData, BinaryArray, BooleanArray, Date32Array,
    DictionaryArray, FixedSizeListArray, Float32Array, Float64Array, Int64Array, LargeBinaryArray,
    LargeStringArray, StringArray, TimestampMicrosecondArray, UInt32Array,
};
use arrow::buffer::{Buffer, NullBuffer, ScalarBuffer};
use arrow::datatypes::{DataType, Field, Schema};
use arrow::error::ArrowError;
use arrow::record_batch::RecordBatch;
use vstd::prelude::*;

use crate::arrays::{opt_bytes_view, opt_texts_view, valid_view};
use crate::cells::{CellSeq, ListForm};
use crate::dict_values::chars_view;
use crate::double::F64;

verus! {

/// `arrow::array::ArrayData`: the data of an array.
#[verifier::external_type_specification]
#[verifier::external_body]
pub struct ExArrayData(ArrayData);

/// `arrow::record_batch::RecordBatch`: arrays with their fields. It stands behind a struct because its
/// arrays are trait objects, to which it also gives access by indexing.
#[verifier::external_body]
pub struct Batch {
    pub inner: RecordBatch,
}

/// `arrow::error::ArrowError`: why no array or batch could be built.
#[verifier::external_type_specification]
#[verifier::external_body]
pub struct ExArrowError(ArrowError);

/// The types of arrays that are built.
#[derive(Clone, Copy, Debug, PartialEq, Eq, Structural)]
pub enum ArrayKind {
    Int64,
    /// Microseconds, without a time zone.
    Timestamp,
    /// Days.
    Date,
    Float64,
    Boolean,
    Utf8,
    LargeUtf8,
    /// Texts behind a dictionary whose keys are unsigned words.
    Dictionary,
    Binary,
    LargeBinary,
    /// Lists of so many floats of 32 bits.
    FixedList(u32),
}

/// What an array holds, row by row.
pub uninterp spec fn array_cells(a: ArrayData) -> Seq<Option<CellSeq>>;

/// The type of an array.
pub uninterp spec fn array_kind(a: ArrayData) -> ArrayKind;

/// One column of a batch: its field and what it holds.
#[verifier::ext_equal]
pub struct FieldSeq {
    pub name: Seq<char>,
    pub nullable: bool,
    pub kind: ArrayKind,
    pub cells: Seq<Option<CellSeq>>,
}

/// The columns of a batch.
pub uninterp spec fn batch_fields(b: Batch) -> Seq<FieldSeq>;

/// Whether entry `i` is there.
pub open spec fn there(valid: Option<Seq<bool>>, i: int) -> bool {
    valid matches Some(b) ==> b[i]
}

/// Whether marks are given for `n` entries, if at all.
pub open spec fn marks(valid: Option<Seq<bool>>, n: int) -> bool {
    valid matches Some(b) ==> b.len() == n
}

/// Integers as values.
pub open spec fn int_cells(values: Seq<i64>, valid: Option<Seq<bool>>) -> Seq<Option<CellSeq>> {
    Seq::new(
        values.len(),
        |i: int|
            if there(valid, i) {
                Some(CellSeq::Int(values[i]))
            } else {
                None
            },
    )
}

/// Days as values.
pub open spec fn day_cells(values: Seq<i32>, valid: Option<Seq<bool>>) -> Seq<Option<CellSeq>> {
    Seq::new(
        values.len(),
        |i: int|
            if there(valid, i) {
                Some(CellSeq::Int(values[i] as i64))
            } else {
                None
            },
    )
}

/// Doubles as values.
pub open spec fn real_cells(values: Seq<F64>, valid: Option<Seq<bool>>) -> Seq<Option<CellSeq>> {
    Seq::new(
        values.len(),
        |i: int|
            if there(valid, i) {
                Some(CellSeq::Real(values[i]))
            } else {
                None
            },
    )
}

/// Truth values as values.
pub open spec fn truth_cells(values: Seq<Option<bool>>) -> Seq<Option<CellSeq>> {
    Seq::new(
        values.len(),
        |i: int|
            match values[i] {
                None => None,
                Some(b) => Some(CellSeq::Truth(b)),
            },
    )
}

/// Texts as values.
pub open spec fn text_cells(values: Seq<Option<Seq<char>>>) -> Seq<Option<CellSeq>> {
    Seq::new(
        values.len(),
        |i: int|
            match values[i] {
                None => None,
                Some(t) => Some(CellSeq::Text(t)),
            },
    )
}

/// Bytes as values.
pub open spec fn byte_cells(values: Seq<Option<Seq<u8>>>) -> Seq<Option<CellSeq>> {
    Seq::new(
        values.len(),
        |i: int|
            match values[i] {
                None => None,
                Some(b) => Some(CellSeq::Bytes(b)),
            },
    )
}

/// The texts that keys stand for, as values.
pub open spec fn keyed_cells(keys: Seq<u32>, values: Seq<Seq<char>>) -> Seq<Option<CellSeq>> {
    Seq::new(keys.len(), |i: int| Some(CellSeq::Text(values[keys[i] as int])))
}

/// `n` lists of `dim` floats of 32 bits each, as values.
pub open spec fn list_cells(bytes: Seq<u8>, dim: int, valid: Option<Seq<bool>>, n: int) -> Seq<
    Option<CellSeq>,
> {
    Seq::new(
        n as nat,
        |i: int|
            if there(valid, i) {
                Some(
                    CellSeq::List {
                        bytes: bytes.subrange(i * (dim * 4), (i + 1) * (dim * 4)),
                        dim: dim as u32,
                        form: ListForm::Float32,
                    },
                )
            } else {
                None
            },
    )
}

/// The bytes that texts take.
pub open spec fn text_bytes(values: Seq<Option<Seq<char>>>) -> int
    decreases values.len(),
{
    if values.len() == 0 {
        0
    } else {
        text_bytes(values.drop_last()) + match values.last() {
            None => 0,
            Some(t) => vstd::utf8::encode_utf8(t).len() as int,
        }
    }
}

/// The bytes that strings of bytes take.
pub open spec fn byte_count(values: Seq<Option<Seq<u8>>>) -> int
    decreases values.len(),
{
    if values.len() == 0 {
        0
    } else {
        byte_count(values.drop_last()) + match values.last() {
            None => 0,
            Some(b) => b.len() as int,
        }
    }
}

/// All texts as present ones.
pub open spec fn all_there(values: Seq<Seq<char>>) -> Seq<Option<Seq<char>>> {
    Seq::new(values.len(), |i: int| Some(values[i]))
}

/// `PrimitiveArray::new` for integers: the values in their order, without those that have no mark. It
/// panics where marks are not given for just these values.
#[verifier::external_body]
pub(crate) fn int_array(values: Vec<i64>, valid: Option<Vec<bool>>) -> (r: ArrayData)
    requires
        marks(valid_view(valid), values@.len() as int),
    ensures
        array_kind(r) == ArrayKind::Int64,
        array_cells(r) == int_cells(values@, valid_view(valid)),
{
    ArrayData::from(Int64Array::new(values.into(), valid.map(NullBuffer::from)))
}

/// `PrimitiveArray::new` for microseconds: the values in their order, without those that have no mark.
/// It panics where marks are not given for just these values.
#[verifier::external_body]
pub(crate) fn time_array(values: Vec<i64>, valid: Option<Vec<bool>>) -> (r: ArrayData)
    requires
        marks(valid_view(valid), values@.len() as int),
    ensures
        array_kind(r) == ArrayKind::Timestamp,
        array_cells(r) == int_cells(values@, valid_view(valid)),
{
    ArrayData::from(TimestampMicrosecondArray::new(values.into(), valid.map(NullBuffer::from)))
}

/// `PrimitiveArray::new` for days: the values in their order, without those that have no mark. It
/// panics where marks are not given for just these values.
#[verifier::external_body]
pub(crate) fn day_array(values: Vec<i32>, valid: Option<Vec<bool>>) -> (r: ArrayData)
    requires
        marks(valid_view(valid), values@.len() as int),
    ensures
        array_kind(r) == ArrayKind::Date,
        array_cells(r) == day_cells(values@, valid_view(valid)),
{
    ArrayData::from(Date32Array::new(values.into(), valid.map(NullBuffer::from)))
}

/// `PrimitiveArray::new` for doubles: the values in their order, bit for bit, without those that have
/// no mark. It panics where marks are not given for just these values.
#[verifier::external_body]
pub(crate) fn real_array(values: Vec<F64>, valid: Option<Vec<bool>>) -> (r: ArrayData)
    requires
        marks(valid_view(valid), values@.len() as int),
    ensures
        array_kind(r) == ArrayKind::Float64,
        array_cells(r) == real_cells(values@, valid_view(valid)),
{
    let bits: Vec<u64> = values.iter().map(|v| v.bits).collect();
    let words = ScalarBuffer::from(Buffer::from_vec(bits));
    ArrayData::from(Float64Array::new(words, valid.map(NullBuffer::from)))
}

/// `BooleanArray::from`: the truth values in their order.
#[verifier::external_body]
pub(crate) fn truth_array(values: Vec<Option<bool>>) -> (r: ArrayData)
    ensures
        array_kind(r) == ArrayKind::Boolean,
        array_cells(r) == truth_cells(values@),
{
    ArrayData::from(BooleanArray::from(values))
}

/// `StringArray::from`: the texts in their order. It panics where they take more bytes than narrow
/// offsets reach.
#[verifier::external_body]
pub(crate) fn text_array(values: Vec<Option<String>>) -> (r: ArrayData)
    requires
        text_bytes(opt_texts_view(values@)) <= i32::MAX,
    ensures
        array_kind(r) == ArrayKind::Utf8,
        array_cells(r) == text_cells(opt_texts_view(values@)),
{
    ArrayData::from(StringArray::from(values))
}

/// `LargeStringArray::from`: the texts in their order. It panics where they take more bytes than wide
/// offsets reach.
#[verifier::external_body]
pub(crate) fn large_text_array(values: Vec<Option<String>>) -> (r: ArrayData)
    requires
        text_bytes(opt_texts_view(values@)) <= i64::MAX,
    ensures
        array_kind(r) == ArrayKind::LargeUtf8,
        array_cells(r) == text_cells(opt_texts_view(values@)),
{
    ArrayData::from(LargeStringArray::from(values))
}

/// `DictionaryArray::try_new` over the texts of `StringArray::from_iter_values`: row by row the text
/// that the key stands for. It fails just where a key stands for none, and panics where the texts take
/// more bytes than narrow offsets reach.
#[verifier::external_body]
pub(crate) fn dictionary_array(keys: Vec<u32>, values: Vec<String>) -> (r: Result<
    ArrayData,
    ArrowError,
>)
    requires
        text_bytes(all_there(chars_view(values@))) <= i32::MAX,
    ensures
        r is Ok == forall|i: int| 0 <= i < keys@.len() ==> #[trigger] keys@[i] < values@.len(),
        r matches Ok(a) ==> array_kind(a) == ArrayKind::Dictionary && array_cells(a)
            == keyed_cells(keys@, chars_view(values@)),
{
    let texts = Arc::new(StringArray::from_iter_values(values));
    DictionaryArray::try_new(UInt32Array::from(keys), texts).map(ArrayData::from)
}

/// `BinaryArray::from_iter`: the strings of bytes in their order. It panics where they take more bytes
/// than narrow offsets reach.
#[verifier::external_body]
pub(crate) fn bytes_array(values: Vec<Option<Vec<u8>>>) -> (r: ArrayData)
    requires
        byte_count(opt_bytes_view(values@)) <= i32::MAX,
    ensures
        array_kind(r) == ArrayKind::Binary,
        array_cells(r) == byte_cells(opt_bytes_view(values@)),
{
    ArrayData::from(BinaryArray::from_iter(values))
}

/// `LargeBinaryArray::from_iter`: the strings of bytes in their order. It panics where they take more
/// bytes than wide offsets reach.
#[verifier::external_body]
pub(crate) fn large_bytes_array(values: Vec<Option<Vec<u8>>>) -> (r: ArrayData)
    requires
        byte_count(opt_bytes_view(values@)) <= i64::MAX,
    ensures
        array_kind(r) == ArrayKind::LargeBinary,
        array_cells(r) == byte_cells(opt_bytes_view(values@)),
{
    ArrayData::from(LargeBinaryArray::from_iter(values))
}

/// `FixedSizeListArray::new` over floats of 32 bits, given by their bytes in memory: the lists in their
/// order, without those that have no mark. It panics where the bytes are not those of whole lists, or
/// marks are not given for just these lists; lists of nothing are as many as there are marks.
#[verifier::external_body]
pub(crate) fn list_array(bytes: Vec<u8>, dim: i32, valid: Option<Vec<bool>>, n: usize) -> (r:
    ArrayData)
    requires
        0 <= dim,
        bytes@.len() == n * (dim * 4),
        marks(valid_view(valid), n as int),
        dim == 0 && valid is None ==> n == 0,
    ensures
        array_kind(r) == ArrayKind::FixedList(dim as u32),
        array_cells(r) == list_cells(bytes@, dim as int, valid_view(valid), n as int),
{
    let item = Arc::new(Field::new("item", DataType::Float32, false));
    let floats = Float32Array::new(ScalarBuffer::from(Buffer::from_slice_ref(&bytes[..])), None);
    let nulls = valid.map(NullBuffer::from);
    ArrayData::from(FixedSizeListArray::new(item, dim, Arc::new(floats), nulls))
}

/// `new_null_array` for texts: `rows` missing texts. It panics where the bytes of their offsets cannot
/// be counted.
#[verifier::external_body]
pub(crate) fn null_array(rows: usize) -> (r: ArrayData)
    requires
        (rows + 1) * 4 <= usize::MAX,
    ensures
        array_kind(r) == ArrayKind::Utf8,
        array_cells(r) == Seq::new(rows as nat, |i: int| None::<CellSeq>),
{
    new_null_array(&DataType::Utf8, rows).to_data()
}

/// The columns of a batch: arrays under names, with whether values may be missing.
pub open spec fn fields_from(names: Seq<(String, bool)>, arrays: Seq<ArrayData>) -> Seq<FieldSeq> {
    Seq::new(
        names.len(),
        |i: int|
            FieldSeq {
                name: names[i].0@,
                nullable: names[i].1,
                kind: array_kind(arrays[i]),
                cells: array_cells(arrays[i]),
            },
    )
}

/// Whether columns form a batch: there are some, all of one length, and none lacks values that it must
/// have.
pub open spec fn forms_batch(fields: Seq<FieldSeq>) -> bool {
    &&& fields.len() > 0
    &&& forall|i: int|
        0 <= i < fields.len() ==> (#[trigger] fields[i]).cells.len() == fields[0].cells.len()
    &&& forall|i: int|
        0 <= i < fields.len() && !(#[trigger] fields[i]).nullable ==> none_missing(fields[i].cells)
}

/// Whether every value is there.
pub open spec fn none_missing(cells: Seq<Option<CellSeq>>) -> bool {
    forall|i: int| 0 <= i < cells.len() ==> (#[trigger] cells[i]) is Some
}

/// `RecordBatch::try_new` with a schema of the names, the types of the arrays and whether values may
/// be missing. It fails just where the arrays do not form a batch.
#[verifier::external_body]
pub(crate) fn batch_try_new(names: Vec<(String, bool)>, arrays: Vec<ArrayData>) -> (r: Result<
    Batch,
    ArrowError,
>)
    requires
        names@.len() == arrays@.len(),
    ensures
        r is Ok == forms_batch(fields_from(names@, arrays@)),
        r matches Ok(b) ==> batch_fields(b) == fields_from(names@, arrays@),
{
    let with_types = names.into_iter().zip(&arrays);
    let fields: Vec<Field> = with_types
        .map(|((name, nullable), a)| Field::new(name, a.data_type().clone(), nullable))
        .collect();
    let columns = arrays.into_iter().map(make_array).collect();
    let inner = RecordBatch::try_new(Arc::new(Schema::new(fields)), columns)?;
    Ok(Batch { inner })
}

/// `RecordBatch::new_empty` with the schema of `Schema::empty`: a batch without columns.
#[verifier::external_body]
pub(crate) fn batch_without_fields() -> (r: Batch)
    ensures
        batch_fields(r) == Seq::<FieldSeq>::empty(),
{
    Batch { inner: RecordBatch::new_empty(Arc::new(Schema::empty())) }
}

} // verus!
