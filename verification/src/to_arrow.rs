//! Batches on their way out: the Arrow arrays behind their descriptions.

use arrow::array::ArrayData;
use vstd::prelude::*;
use vstd::slice::{slice_subrange, slice_to_vec};

use crate::arrays::{
    opt_bytes_view, opt_texts_view, text_view, valid_view, ArrayDesc, ArraySeq,
};
use crate::batch::{names_view, BatchDesc, BatchSeq, FieldType};
use crate::by_id::visible_ids;
use crate::cells::{cell_view, cells_view, Cell, CellSeq, ListForm};
use crate::codec::ColumnCodec;
use crate::column::bytes_view;
use crate::columnar::{
    all_there, array_cells, array_kind, batch_fields, batch_try_new, batch_without_fields,
    byte_cells, byte_count, bytes_array, day_array, day_cells, dictionary_array, fields_from,
    forms_batch, int_array, int_cells, keyed_cells, large_bytes_array, large_text_array,
    list_array, list_cells, marks, null_array, real_array, real_cells, text_array, text_bytes,
    text_cells, time_array, truth_array, truth_cells, ArrayKind, Batch, FieldSeq,
};
use crate::dict_values::chars_view;
use crate::double::F64;
use crate::groupby::{grouped, groups_view, results_view, GroupTally};
use crate::like_extract::{LikeBatch, LikeBatchSeq};
use crate::model::ScanError;
use crate::outside::{decimal, int_text};
use crate::overlay::{edits_view, overlaid, overlay, CellEdit, EditSeq};
use crate::retrieve::{BatchColumnsSeq, MmapBatchColumns};
use crate::row_batch::{
    list_view, lists_view, BatchColumnSeq, MmapBatchColumn, RowsBatch, RowsBatchSeq, RowsColumn,
    RowsColumnSeq,
};
use crate::storage::OnDemandStorage;

verus! {

/// The type and the values of an array.
#[verifier::ext_equal]
pub struct Made {
    pub kind: ArrayKind,
    pub cells: Seq<Option<CellSeq>>,
}

/// Whether `r` is an array with the type and the values of `want`.
pub open spec fn array_is(r: Result<ArrayData, ScanError>, want: Result<Made, ScanError>) -> bool {
    match r {
        Err(e) => want == Err::<Made, ScanError>(e),
        Ok(a) => want == Ok::<Made, ScanError>(
            Made { kind: array_kind(a), cells: array_cells(a) },
        ),
    }
}

/// Numbers with marks, where there are as many marks as numbers.
pub open spec fn marked(kind: ArrayKind, cells: Seq<Option<CellSeq>>, valid: Option<Seq<bool>>) -> Result<
    Made,
    ScanError,
> {
    if marks(valid, cells.len() as int) {
        Ok(Made { kind, cells })
    } else {
        Err(ScanError::Corrupt)
    }
}

/// Texts, where the offsets reach all of their bytes.
pub open spec fn texts_made(values: Seq<Option<Seq<char>>>, large: bool) -> Result<Made, ScanError> {
    if large {
        if text_bytes(values) > i64::MAX {
            Err(ScanError::LengthOverflow)
        } else {
            Ok(Made { kind: ArrayKind::LargeUtf8, cells: text_cells(values) })
        }
    } else if text_bytes(values) > i32::MAX {
        Err(ScanError::LengthOverflow)
    } else {
        Ok(Made { kind: ArrayKind::Utf8, cells: text_cells(values) })
    }
}

/// Strings of bytes, where the offsets reach all of their bytes.
pub open spec fn bytes_made(values: Seq<Option<Seq<u8>>>, large: bool) -> Result<Made, ScanError> {
    if large {
        if byte_count(values) > i64::MAX {
            Err(ScanError::LengthOverflow)
        } else {
            Ok(Made { kind: ArrayKind::LargeBinary, cells: byte_cells(values) })
        }
    } else if byte_count(values) > i32::MAX {
        Err(ScanError::LengthOverflow)
    } else {
        Ok(Made { kind: ArrayKind::Binary, cells: byte_cells(values) })
    }
}

proof fn text_bytes_push(v: Seq<Option<Seq<char>>>, x: Option<Seq<char>>)
    ensures
        text_bytes(v.push(x)) == text_bytes(v) + match x {
            None => 0,
            Some(t) => vstd::utf8::encode_utf8(t).len() as int,
        },
{
    assert(v.push(x).drop_last() =~= v);
}

/// Whether texts take at most `most` bytes.
fn do_texts_fit(values: &Vec<Option<String>>, most: u64) -> (r: bool)
    requires
        most <= i64::MAX,
    ensures
        r == (text_bytes(opt_texts_view(values@)) <= most),
{
    let ghost all = opt_texts_view(values@);
    let mut sum: u64 = 0;
    let mut i: usize = 0;
    assert(all.take(0) =~= Seq::empty());
    while i < values.len()
        invariant
            i <= values@.len(),
            all == opt_texts_view(values@),
            sum == text_bytes(all.take(i as int)),
            sum <= most <= i64::MAX,
        decreases values@.len() - i,
    {
        proof {
            assert(all.take(i + 1) =~= all.take(i as int).push(all[i as int]));
            text_bytes_push(all.take(i as int), all[i as int]);
            assert(all[i as int] == text_view(values@[i as int]));
        }
        if let Some(t) = &values[i] {
            let n: usize = t.as_str().as_bytes().len();
            if n as u64 > most - sum {
                proof {
                    text_bytes_grow(all, i + 1);
                }
                return false;
            }
            sum = sum + n as u64;
        }
        i = i + 1;
    }
    assert(all.take(all.len() as int) =~= all);
    true
}

proof fn text_bytes_grow(v: Seq<Option<Seq<char>>>, k: int)
    requires
        0 <= k <= v.len(),
    ensures
        text_bytes(v.take(k)) <= text_bytes(v),
    decreases v.len() - k,
{
    if k < v.len() {
        assert(v.take(k + 1) =~= v.take(k).push(v[k]));
        text_bytes_push(v.take(k), v[k]);
        text_bytes_grow(v, k + 1);
    } else {
        assert(v.take(k) =~= v);
    }
}

proof fn byte_count_push(v: Seq<Option<Seq<u8>>>, x: Option<Seq<u8>>)
    ensures
        byte_count(v.push(x)) == byte_count(v) + match x {
            None => 0,
            Some(b) => b.len() as int,
        },
{
    assert(v.push(x).drop_last() =~= v);
}

proof fn byte_count_grow(v: Seq<Option<Seq<u8>>>, k: int)
    requires
        0 <= k <= v.len(),
    ensures
        byte_count(v.take(k)) <= byte_count(v),
    decreases v.len() - k,
{
    if k < v.len() {
        assert(v.take(k + 1) =~= v.take(k).push(v[k]));
        byte_count_push(v.take(k), v[k]);
        byte_count_grow(v, k + 1);
    } else {
        assert(v.take(k) =~= v);
    }
}

/// Whether strings of bytes take at most `most` bytes.
fn do_bytes_fit(values: &Vec<Option<Vec<u8>>>, most: u64) -> (r: bool)
    requires
        most <= i64::MAX,
    ensures
        r == (byte_count(opt_bytes_view(values@)) <= most),
{
    let ghost all = opt_bytes_view(values@);
    let mut sum: u64 = 0;
    let mut i: usize = 0;
    assert(all.take(0) =~= Seq::empty());
    while i < values.len()
        invariant
            i <= values@.len(),
            all == opt_bytes_view(values@),
            sum == byte_count(all.take(i as int)),
            sum <= most <= i64::MAX,
        decreases values@.len() - i,
    {
        proof {
            assert(all.take(i + 1) =~= all.take(i as int).push(all[i as int]));
            byte_count_push(all.take(i as int), all[i as int]);
            assert(all[i as int] == bytes_view(values@[i as int]));
        }
        if let Some(b) = &values[i] {
            let n: usize = b.len();
            if n as u64 > most - sum {
                proof {
                    byte_count_grow(all, i + 1);
                }
                return false;
            }
            sum = sum + n as u64;
        }
        i = i + 1;
    }
    assert(all.take(all.len() as int) =~= all);
    true
}

fn make_texts(values: Vec<Option<String>>, large: bool) -> (r: Result<ArrayData, ScanError>)
    ensures
        array_is(r, texts_made(opt_texts_view(values@), large)),
{
    if large {
        if do_texts_fit(&values, i64::MAX as u64) {
            Ok(large_text_array(values))
        } else {
            Err(ScanError::LengthOverflow)
        }
    } else if do_texts_fit(&values, i32::MAX as u64) {
        Ok(text_array(values))
    } else {
        Err(ScanError::LengthOverflow)
    }
}

fn make_bytes(values: Vec<Option<Vec<u8>>>, large: bool) -> (r: Result<ArrayData, ScanError>)
    ensures
        array_is(r, bytes_made(opt_bytes_view(values@), large)),
{
    if large {
        if do_bytes_fit(&values, i64::MAX as u64) {
            Ok(large_bytes_array(values))
        } else {
            Err(ScanError::LengthOverflow)
        }
    } else if do_bytes_fit(&values, i32::MAX as u64) {
        Ok(bytes_array(values))
    } else {
        Err(ScanError::LengthOverflow)
    }
}

/// Texts behind a dictionary, where every key stands for a text and narrow offsets reach all bytes.
pub open spec fn dictionary_made(keys: Seq<u32>, values: Seq<Seq<char>>) -> Result<Made, ScanError> {
    if text_bytes(all_there(values)) > i32::MAX {
        Err(ScanError::LengthOverflow)
    } else if forall|i: int| 0 <= i < keys.len() ==> #[trigger] keys[i] < values.len() {
        Ok(Made { kind: ArrayKind::Dictionary, cells: keyed_cells(keys, values) })
    } else {
        Err(ScanError::Batch)
    }
}

/// Whether texts take at most as many bytes as narrow offsets reach.
fn do_all_texts_fit(values: &Vec<String>) -> (r: bool)
    ensures
        r == (text_bytes(all_there(chars_view(values@))) <= i32::MAX),
{
    let ghost all = all_there(chars_view(values@));
    let most: u64 = i32::MAX as u64;
    let mut sum: u64 = 0;
    let mut i: usize = 0;
    assert(all.take(0) =~= Seq::empty());
    while i < values.len()
        invariant
            i <= values@.len(),
            all == all_there(chars_view(values@)),
            sum == text_bytes(all.take(i as int)),
            most == i32::MAX,
            sum <= most,
        decreases values@.len() - i,
    {
        proof {
            assert(all.take(i + 1) =~= all.take(i as int).push(all[i as int]));
            text_bytes_push(all.take(i as int), all[i as int]);
        }
        let n: usize = values[i].as_str().as_bytes().len();
        if n as u64 > most - sum {
            proof {
                text_bytes_grow(all, i + 1);
            }
            return false;
        }
        sum = sum + n as u64;
        i = i + 1;
    }
    assert(all.take(all.len() as int) =~= all);
    true
}

fn make_dictionary(keys: Vec<u32>, values: Vec<String>) -> (r: Result<ArrayData, ScanError>)
    ensures
        array_is(r, dictionary_made(keys@, chars_view(values@))),
{
    if !do_all_texts_fit(&values) {
        return Err(ScanError::LengthOverflow);
    }
    match dictionary_array(keys, values) {
        Err(_) => Err(ScanError::Batch),
        Ok(a) => Ok(a),
    }
}

/// The floats that a vector stands for.
pub open spec fn floats_of<C: ColumnCodec>(c: C, form: ListForm, dim: u32, bytes: Seq<u8>) -> Option<
    Seq<u8>,
> {
    if form is Float32 {
        Some(bytes)
    } else {
        c.expanded(form, dim, bytes)
    }
}

fn get_floats<C: ColumnCodec>(c: &C, form: ListForm, dim: u32, bytes: &[u8]) -> (r: Option<Vec<u8>>)
    ensures
        r is Some == floats_of(*c, form, dim, bytes@) is Some,
        r matches Some(v) ==> floats_of(*c, form, dim, bytes@) == Some(v@),
{
    match form {
        ListForm::Float32 => Some(slice_to_vec(bytes)),
        _ => c.expand_vector(form, dim, bytes),
    }
}

/// The floats of the first `n` vectors of `width` bytes each; `None` where one of them cannot be read
/// as `dim` floats.
pub open spec fn floats_upto<C: ColumnCodec>(
    c: C,
    form: ListForm,
    dim: u32,
    data: Seq<u8>,
    width: int,
    n: int,
) -> Option<Seq<u8>>
    decreases n,
{
    if n <= 0 {
        Some(Seq::empty())
    } else {
        match (
            floats_upto(c, form, dim, data, width, n - 1),
            floats_of(c, form, dim, data.subrange((n - 1) * width, n * width)),
        ) {
            (Some(a), Some(b)) if b.len() == dim * 4 => Some(a + b),
            _ => None,
        }
    }
}

proof fn floats_failed<C: ColumnCodec>(
    c: C,
    form: ListForm,
    dim: u32,
    data: Seq<u8>,
    width: int,
    j: int,
    n: int,
)
    requires
        0 <= j <= n,
        floats_upto(c, form, dim, data, width, j) is None,
    ensures
        floats_upto(c, form, dim, data, width, n) is None,
    decreases n,
{
    if j < n {
        floats_failed(c, form, dim, data, width, j, n - 1);
    }
}

fn get_floats_upto<C: ColumnCodec>(
    c: &C,
    form: ListForm,
    dim: u32,
    data: &Vec<u8>,
    width: usize,
    n: usize,
) -> (r: Option<Vec<u8>>)
    requires
        n * width <= data@.len(),
    ensures
        r is Some == floats_upto(*c, form, dim, data@, width as int, n as int) is Some,
        r matches Some(v) ==> floats_upto(*c, form, dim, data@, width as int, n as int) == Some(
            v@,
        ),
{
    let mut out: Vec<u8> = Vec::new();
    let mut i: usize = 0;
    while i < n
        invariant
            i <= n,
            n * width <= data@.len(),
            floats_upto(*c, form, dim, data@, width as int, i as int) == Some(out@),
        decreases n - i,
    {
        let len: usize = data.len();
        proof {
            assert((i + 1) * width <= n * width && i * width <= (i + 1) * width && (i + 1) * width
                == i * width + width) by (nonlinear_arith)
                requires
                    0 <= i < n,
                    0 <= width,
            ;
        }
        let from: usize = i * width;
        let row: &[u8] = slice_subrange(data.as_slice(), from, from + width);
        match get_floats(c, form, dim, row) {
            Some(mut v) if v.len() as u64 == dim as u64 * 4 => {
                out.append(&mut v);
            },
            _ => {
                proof {
                    floats_failed(*c, form, dim, data@, width as int, i + 1, n as int);
                }
                return None;
            },
        }
        i = i + 1;
    }
    Some(out)
}

/// How many lists of `dim` floats there are; those of nothing are as many as there are marks.
pub open spec fn list_count(size: int, dim: u32, valid: Option<Seq<bool>>) -> int {
    if dim == 0 {
        match valid {
            None => 0,
            Some(b) => b.len() as int,
        }
    } else {
        size / (dim * 4)
    }
}

/// Lists of `dim` floats, where their bytes are those of whole lists and there are as many marks as
/// lists.
pub open spec fn lists_made(bytes: Seq<u8>, dim: u32, valid: Option<Seq<bool>>) -> Result<
    Made,
    ScanError,
> {
    let n = list_count(bytes.len() as int, dim, valid);
    if dim > i32::MAX || bytes.len() != n * (dim * 4) || !marks(valid, n) {
        Err(ScanError::Corrupt)
    } else {
        Ok(
            Made {
                kind: ArrayKind::FixedList(dim),
                cells: list_cells(bytes, dim as int, valid, n),
            },
        )
    }
}

fn make_lists(bytes: Vec<u8>, dim: u32, valid: Option<Vec<bool>>) -> (r: Result<ArrayData, ScanError>)
    ensures
        array_is(r, lists_made(bytes@, dim, valid_view(valid))),
{
    if dim > 0x7fff_ffff {
        return Err(ScanError::Corrupt);
    }
    let len: usize = bytes.len();
    let width: u64 = dim as u64 * 4;
    let n: usize = if dim == 0 {
        match &valid {
            None => 0,
            Some(b) => b.len(),
        }
    } else {
        (len as u64 / width) as usize
    };
    proof {
        if dim > 0 {
            assert(n * width <= len) by (nonlinear_arith)
                requires
                    width > 0,
                    n == len as int / (width as int),
            ;
        }
    }
    let whole: bool = if dim == 0 {
        len == 0
    } else {
        len as u64 == n as u64 * width
    };
    if !whole {
        return Err(ScanError::Corrupt);
    }
    if let Some(b) = &valid {
        if b.len() != n {
            return Err(ScanError::Corrupt);
        }
    }
    Ok(list_array(bytes, dim as i32, valid, n))
}

/// What the first `k` references stand for; `None` where one of them cannot be followed.
pub open spec fn blobs_upto<C: ColumnCodec>(c: C, refs: Seq<Option<Seq<u8>>>, k: int) -> Option<
    Seq<Option<Seq<u8>>>,
>
    decreases k,
{
    if k <= 0 {
        Some(Seq::empty())
    } else {
        match blobs_upto(c, refs, k - 1) {
            None => None,
            Some(before) => match refs[k - 1] {
                None => Some(before.push(None)),
                Some(r) => match c.blob(r) {
                    None => None,
                    Some(b) => Some(before.push(Some(b))),
                },
            },
        }
    }
}

proof fn blobs_failed<C: ColumnCodec>(c: C, refs: Seq<Option<Seq<u8>>>, j: int, k: int)
    requires
        0 <= j <= k,
        blobs_upto(c, refs, j) is None,
    ensures
        blobs_upto(c, refs, k) is None,
    decreases k,
{
    if j < k {
        blobs_failed(c, refs, j, k - 1);
    }
}

/// What references stand for.
pub open spec fn blobs_made<C: ColumnCodec>(c: C, refs: Seq<Option<Seq<u8>>>) -> Result<
    Made,
    ScanError,
> {
    match blobs_upto(c, refs, refs.len() as int) {
        None => Err(ScanError::Codec),
        Some(v) => bytes_made(v, true),
    }
}

fn make_blobs<C: ColumnCodec>(c: &C, refs: &Vec<Option<Vec<u8>>>) -> (r: Result<ArrayData, ScanError>)
    ensures
        array_is(r, blobs_made(*c, opt_bytes_view(refs@))),
{
    let ghost all = opt_bytes_view(refs@);
    let mut out: Vec<Option<Vec<u8>>> = Vec::with_capacity(refs.len());
    let mut i: usize = 0;
    assert(opt_bytes_view(out@) =~= Seq::empty());
    while i < refs.len()
        invariant
            i <= refs@.len(),
            all == opt_bytes_view(refs@),
            blobs_upto(*c, all, i as int) == Some(opt_bytes_view(out@)),
        decreases refs@.len() - i,
    {
        let ghost before = opt_bytes_view(out@);
        assert(all[i as int] == bytes_view(refs@[i as int]));
        match &refs[i] {
            None => {
                out.push(None);
                assert(opt_bytes_view(out@) =~= before.push(None));
            },
            Some(r) => match c.read_blob(r.as_slice()) {
                None => {
                    proof {
                        blobs_failed(*c, all, i + 1, all.len() as int);
                    }
                    return Err(ScanError::Codec);
                },
                Some(b) => {
                    out.push(Some(b));
                    assert(opt_bytes_view(out@) =~= before.push(Some(b@)));
                },
            },
        }
        i = i + 1;
    }
    make_bytes(out, true)
}

/// The array behind a description.
pub open spec fn array_made<C: ColumnCodec>(c: C, d: ArraySeq) -> Result<Made, ScanError> {
    match d {
        ArraySeq::Int64 { values, valid } => marked(
            ArrayKind::Int64,
            int_cells(values, valid),
            valid,
        ),
        ArraySeq::Timestamp { values, valid } => marked(
            ArrayKind::Timestamp,
            int_cells(values, valid),
            valid,
        ),
        ArraySeq::Date { values, valid } => marked(
            ArrayKind::Date,
            day_cells(values, valid),
            valid,
        ),
        ArraySeq::Float64 { values, valid } => marked(
            ArrayKind::Float64,
            real_cells(values, valid),
            valid,
        ),
        ArraySeq::Bool { values } => Ok(
            Made { kind: ArrayKind::Boolean, cells: truth_cells(values) },
        ),
        ArraySeq::Utf8 { values, large } => texts_made(values, large),
        ArraySeq::Dictionary { keys, values } => dictionary_made(keys, values),
        ArraySeq::Binary { values, large } => bytes_made(values, large),
        ArraySeq::Blob { refs } => blobs_made(c, refs),
        ArraySeq::FixedList { data, dim } => lists_made(data, dim, None),
        ArraySeq::Float16List { data, dim } => vectors_made(
            c,
            ListForm::Float16,
            dim,
            data,
            dim * 2,
            None,
        ),
        ArraySeq::Vectors { data, dim, codec, width, valid } => vectors_made(
            c,
            ListForm::Quantized(codec),
            dim,
            data,
            width,
            valid,
        ),
        ArraySeq::Null { rows } => nothing_made(rows),
    }
}

/// Rows without a text, where the bytes of their offsets can be counted.
pub open spec fn nothing_made(rows: int) -> Result<Made, ScanError> {
    if (rows + 1) * 4 > usize::MAX {
        Err(ScanError::LengthOverflow)
    } else {
        Ok(Made { kind: ArrayKind::Utf8, cells: Seq::new(rows as nat, |i: int| None) })
    }
}

/// The lists behind vectors of `width` bytes each.
pub open spec fn vectors_made<C: ColumnCodec>(
    c: C,
    form: ListForm,
    dim: u32,
    data: Seq<u8>,
    width: int,
    valid: Option<Seq<bool>>,
) -> Result<Made, ScanError> {
    let n = if width == 0 {
        0
    } else {
        data.len() as int / width
    };
    match floats_upto(c, form, dim, data, width, n) {
        None => Err(ScanError::Codec),
        Some(bytes) => lists_made(bytes, dim, valid),
    }
}

fn make_vectors<C: ColumnCodec>(
    c: &C,
    form: ListForm,
    dim: u32,
    data: &Vec<u8>,
    width: usize,
    valid: Option<Vec<bool>>,
) -> (r: Result<ArrayData, ScanError>)
    ensures
        array_is(r, vectors_made(*c, form, dim, data@, width as int, valid_view(valid))),
{
    let n: usize = if width == 0 {
        0
    } else {
        data.len() / width
    };
    proof {
        let len = data@.len() as int;
        assert(n * width <= len) by (nonlinear_arith)
            requires
                0 <= len,
                width == 0 ==> n == 0,
                width > 0 ==> n == len / (width as int),
        ;
    }
    match get_floats_upto(c, form, dim, data, width, n) {
        None => Err(ScanError::Codec),
        Some(bytes) => make_lists(bytes, dim, valid),
    }
}

fn do_mark(valid: &Option<Vec<bool>>, n: usize) -> (r: bool)
    ensures
        r == marks(valid_view(*valid), n as int),
{
    match valid {
        None => true,
        Some(b) => b.len() == n,
    }
}

/// Builds the array behind a description.
pub fn make_array_of<C: ColumnCodec>(c: &C, d: ArrayDesc) -> (r: Result<ArrayData, ScanError>)
    ensures
        array_is(r, array_made(*c, d@)),
{
    match d {
        ArrayDesc::Int64 { values, valid } => {
            if !do_mark(&valid, values.len()) {
                return Err(ScanError::Corrupt);
            }
            Ok(int_array(values, valid))
        },
        ArrayDesc::Timestamp { values, valid } => {
            if !do_mark(&valid, values.len()) {
                return Err(ScanError::Corrupt);
            }
            Ok(time_array(values, valid))
        },
        ArrayDesc::Date { values, valid } => {
            if !do_mark(&valid, values.len()) {
                return Err(ScanError::Corrupt);
            }
            Ok(day_array(values, valid))
        },
        ArrayDesc::Float64 { values, valid } => {
            if !do_mark(&valid, values.len()) {
                return Err(ScanError::Corrupt);
            }
            Ok(real_array(values, valid))
        },
        ArrayDesc::Bool { values } => Ok(truth_array(values)),
        ArrayDesc::Utf8 { values, large } => make_texts(values, large),
        ArrayDesc::Dictionary { keys, values } => make_dictionary(keys, values),
        ArrayDesc::Binary { values, large } => make_bytes(values, large),
        ArrayDesc::Blob { refs } => make_blobs(c, &refs),
        ArrayDesc::FixedList { data, dim } => make_lists(data, dim, None),
        ArrayDesc::Float16List { data, dim } => {
            let wide: u64 = dim as u64 * 2;
            if wide > data.len() as u64 {
                proof {
                    let len = data@.len() as int;
                    let w = dim * 2;
                    assert(len / w == 0) by (nonlinear_arith)
                        requires
                            0 <= len < w,
                    ;
                    assert(floats_upto(*c, ListForm::Float16, dim, data@, w, 0) == Some(
                        Seq::<u8>::empty(),
                    ));
                }
                return make_lists(Vec::new(), dim, None);
            }
            make_vectors(c, ListForm::Float16, dim, &data, wide as usize, None)
        },
        ArrayDesc::Vectors { data, dim, codec, width, valid } => make_vectors(
            c,
            ListForm::Quantized(codec),
            dim,
            &data,
            width,
            valid,
        ),
        ArrayDesc::Null { rows } => {
            if rows >= usize::MAX / 4 {
                Err(ScanError::LengthOverflow)
            } else {
                Ok(null_array(rows))
            }
        },
    }
}

/// Texts and integers shown as texts.
pub open spec fn shown_text(c: Option<CellSeq>) -> Option<Seq<char>> {
    match c {
        Some(CellSeq::Text(t)) => Some(t),
        Some(CellSeq::Int(v)) => Some(decimal(v as int)),
        _ => None,
    }
}

fn get_shown_texts(cells: &Vec<Option<Cell>>) -> (r: Vec<Option<String>>)
    ensures
        opt_texts_view(r@) == Seq::new(
            cells@.len(),
            |i: int| shown_text(cells_view(cells@)[i]),
        ),
{
    let ghost all = cells_view(cells@);
    let mut out: Vec<Option<String>> = Vec::with_capacity(cells.len());
    let mut i: usize = 0;
    while i < cells.len()
        invariant
            i <= cells@.len(),
            out@.len() == i,
            all == cells_view(cells@),
            forall|k: int| 0 <= k < i ==> text_view(#[trigger] out@[k]) == shown_text(all[k]),
        decreases cells@.len() - i,
    {
        assert(all[i as int] == cell_view(cells@[i as int]));
        match &cells[i] {
            Some(Cell::Text(t)) => {
                out.push(Some(t.as_str().to_owned()));
            },
            Some(Cell::Int(v)) => {
                out.push(Some(int_text(*v)));
            },
            _ => {
                out.push(None);
            },
        }
        i = i + 1;
    }
    assert(opt_texts_view(out@) =~= Seq::new(cells@.len(), |i: int| shown_text(all[i])));
    out
}

/// Optional integers as values.
pub open spec fn opt_int_cells(v: Seq<Option<i64>>) -> Seq<Option<CellSeq>> {
    Seq::new(
        v.len(),
        |i: int|
            match v[i] {
                None => None,
                Some(x) => Some(CellSeq::Int(x)),
            },
    )
}

/// Optional doubles as values.
pub open spec fn opt_real_cells(v: Seq<Option<F64>>) -> Seq<Option<CellSeq>> {
    Seq::new(
        v.len(),
        |i: int|
            match v[i] {
                None => None,
                Some(x) => Some(CellSeq::Real(x)),
            },
    )
}

/// The array behind a column of optional values.
pub open spec fn typed_made(col: BatchColumnSeq) -> Result<Made, ScanError> {
    match col {
        BatchColumnSeq::I64(v) => Ok(Made { kind: ArrayKind::Int64, cells: opt_int_cells(v) }),
        BatchColumnSeq::F64(v) => Ok(Made { kind: ArrayKind::Float64, cells: opt_real_cells(v) }),
        BatchColumnSeq::Str(v) => texts_made(v, false),
        BatchColumnSeq::Bool(v) => Ok(Made { kind: ArrayKind::Boolean, cells: truth_cells(v) }),
        BatchColumnSeq::Bin(v) => bytes_made(v, false),
    }
}

fn make_ints(v: &Vec<Option<i64>>) -> (r: ArrayData)
    ensures
        array_kind(r) == ArrayKind::Int64,
        array_cells(r) == opt_int_cells(v@),
{
    let mut values: Vec<i64> = Vec::with_capacity(v.len());
    let mut valid: Vec<bool> = Vec::with_capacity(v.len());
    let mut i: usize = 0;
    while i < v.len()
        invariant
            i <= v@.len(),
            values@.len() == i,
            valid@.len() == i,
            forall|k: int|
                0 <= k < i ==> #[trigger] valid@[k] == v@[k] is Some && (valid@[k] ==> values@[k]
                    == v@[k]->0),
        decreases v@.len() - i,
    {
        match v[i] {
            None => {
                values.push(0);
                valid.push(false);
            },
            Some(x) => {
                values.push(x);
                valid.push(true);
            },
        }
        i = i + 1;
    }
    let ghost cells = int_cells(values@, Some(valid@));
    assert forall|k: int| 0 <= k < v@.len() implies #[trigger] cells[k] == opt_int_cells(
        v@,
    )[k] by {
        assert(valid@[k] == v@[k] is Some);
    }
    assert(cells =~= opt_int_cells(v@));
    int_array(values, Some(valid))
}

fn make_reals(v: &Vec<Option<F64>>) -> (r: ArrayData)
    ensures
        array_kind(r) == ArrayKind::Float64,
        array_cells(r) == opt_real_cells(v@),
{
    let mut values: Vec<F64> = Vec::with_capacity(v.len());
    let mut valid: Vec<bool> = Vec::with_capacity(v.len());
    let mut i: usize = 0;
    while i < v.len()
        invariant
            i <= v@.len(),
            values@.len() == i,
            valid@.len() == i,
            forall|k: int|
                0 <= k < i ==> #[trigger] valid@[k] == v@[k] is Some && (valid@[k] ==> values@[k]
                    == v@[k]->0),
        decreases v@.len() - i,
    {
        match v[i] {
            None => {
                values.push(F64::from_bits(0));
                valid.push(false);
            },
            Some(x) => {
                values.push(x);
                valid.push(true);
            },
        }
        i = i + 1;
    }
    let ghost cells = real_cells(values@, Some(valid@));
    assert forall|k: int| 0 <= k < v@.len() implies #[trigger] cells[k] == opt_real_cells(
        v@,
    )[k] by {
        assert(valid@[k] == v@[k] is Some);
    }
    assert(cells =~= opt_real_cells(v@));
    real_array(values, Some(valid))
}

fn make_typed(col: MmapBatchColumn) -> (r: Result<ArrayData, ScanError>)
    ensures
        array_is(r, typed_made(col@)),
{
    match col {
        MmapBatchColumn::I64(v) => Ok(make_ints(&v)),
        MmapBatchColumn::F64(v) => Ok(make_reals(&v)),
        MmapBatchColumn::Str(v) => make_texts(v, false),
        MmapBatchColumn::Bool(v) => Ok(truth_array(v)),
        MmapBatchColumn::Bin(v) => make_bytes(v, false),
    }
}

/// The floats of the first `k` lists, nothing but zeros where there is none of `dim` floats, with which
/// of them are there; `None` where one of them cannot be read.
pub open spec fn picked_floats<C: ColumnCodec>(
    c: C,
    rows: Seq<Option<(Seq<u8>, ListForm)>>,
    dim: u32,
    k: int,
) -> Option<(Seq<u8>, Seq<bool>)>
    decreases k,
{
    if k <= 0 {
        Some((Seq::empty(), Seq::empty()))
    } else {
        let zeros = Seq::new((dim * 4) as nat, |i: int| 0u8);
        match picked_floats(c, rows, dim, k - 1) {
            None => None,
            Some((bytes, valid)) => match rows[k - 1] {
                None => Some((bytes + zeros, valid.push(false))),
                Some((b, form)) => match floats_of(c, form, dim, b) {
                    None => None,
                    Some(v) => if v.len() == dim * 4 {
                        Some((bytes + v, valid.push(true)))
                    } else {
                        Some((bytes + zeros, valid.push(false)))
                    },
                },
            },
        }
    }
}

proof fn picked_floats_failed<C: ColumnCodec>(
    c: C,
    rows: Seq<Option<(Seq<u8>, ListForm)>>,
    dim: u32,
    j: int,
    k: int,
)
    requires
        0 <= j <= k,
        picked_floats(c, rows, dim, j) is None,
    ensures
        picked_floats(c, rows, dim, k) is None,
    decreases k,
{
    if j < k {
        picked_floats_failed(c, rows, dim, j, k - 1);
    }
}

/// Which entries are there: `None` where all are.
pub open spec fn marks_needed(valid: Seq<bool>) -> Option<Seq<bool>> {
    if forall|i: int| 0 <= i < valid.len() ==> #[trigger] valid[i] {
        None
    } else {
        Some(valid)
    }
}

fn get_marks(valid: Vec<bool>) -> (r: Option<Vec<bool>>)
    ensures
        valid_view(r) == marks_needed(valid@),
{
    let mut i: usize = 0;
    while i < valid.len()
        invariant
            i <= valid@.len(),
            forall|k: int| 0 <= k < i ==> #[trigger] valid@[k],
        decreases valid@.len() - i,
    {
        if !valid[i] {
            assert(!valid@[i as int]);
            return Some(valid);
        }
        i = i + 1;
    }
    None
}

/// Lists that were picked row by row.
pub open spec fn picked_lists<C: ColumnCodec>(
    c: C,
    rows: Seq<Option<(Seq<u8>, ListForm)>>,
    dim: u32,
) -> Result<Made, ScanError> {
    match picked_floats(c, rows, dim, rows.len() as int) {
        None => Err(ScanError::Codec),
        Some((bytes, valid)) => lists_made(bytes, dim, marks_needed(valid)),
    }
}

fn get_zeros(n: usize) -> (r: Vec<u8>)
    ensures
        r@ == Seq::new(n as nat, |i: int| 0u8),
{
    let mut out: Vec<u8> = Vec::with_capacity(n);
    let mut i: usize = 0;
    while i < n
        invariant
            i <= n,
            out@ =~= Seq::new(i as nat, |k: int| 0u8),
        decreases n - i,
    {
        out.push(0);
        i = i + 1;
    }
    out
}

fn make_picked_lists<C: ColumnCodec>(
    c: &C,
    rows: &Vec<Option<(Vec<u8>, ListForm)>>,
    dim: u32,
) -> (r: Result<ArrayData, ScanError>)
    requires
        dim * 4 <= usize::MAX,
    ensures
        array_is(r, picked_lists(*c, lists_view(rows@), dim)),
{
    let ghost all = lists_view(rows@);
    let size: usize = dim as usize * 4;
    let ghost zeros = Seq::new((dim * 4) as nat, |i: int| 0u8);
    let mut bytes: Vec<u8> = Vec::new();
    let mut valid: Vec<bool> = Vec::with_capacity(rows.len());
    let mut i: usize = 0;
    while i < rows.len()
        invariant
            i <= rows@.len(),
            all == lists_view(rows@),
            size == dim * 4,
            zeros == Seq::new((dim * 4) as nat, |i: int| 0u8),
            picked_floats(*c, all, dim, i as int) == Some((bytes@, valid@)),
        decreases rows@.len() - i,
    {
        assert(all[i as int] == list_view(rows@[i as int]));
        let piece: Option<Vec<u8>> = match &rows[i] {
            None => None,
            Some((b, form)) => match get_floats(c, *form, dim, b.as_slice()) {
                None => {
                    proof {
                        picked_floats_failed(*c, all, dim, i + 1, all.len() as int);
                    }
                    return Err(ScanError::Codec);
                },
                Some(v) => if v.len() == size {
                    Some(v)
                } else {
                    None
                },
            },
        };
        match piece {
            None => {
                let mut none: Vec<u8> = get_zeros(size);
                bytes.append(&mut none);
                valid.push(false);
            },
            Some(mut v) => {
                bytes.append(&mut v);
                valid.push(true);
            },
        }
        i = i + 1;
    }
    make_lists(bytes, dim, get_marks(valid))
}

/// The array behind a column of rows that were asked for by number.
pub open spec fn rows_made<C: ColumnCodec>(c: C, col: RowsColumnSeq) -> Result<Made, ScanError> {
    match col {
        RowsColumnSeq::Typed(t) => typed_made(t),
        RowsColumnSeq::Blobs(refs) => blobs_made(c, refs),
        RowsColumnSeq::Lists { rows, dim } => if dim * 4 > usize::MAX {
            Err(ScanError::LengthOverflow)
        } else {
            picked_lists(c, rows, dim)
        },
        RowsColumnSeq::Other(cells) => texts_made(
            Seq::new(cells.len(), |i: int| shown_text(cells[i])),
            false,
        ),
    }
}

fn make_rows<C: ColumnCodec>(c: &C, col: RowsColumn) -> (r: Result<ArrayData, ScanError>)
    ensures
        array_is(r, rows_made(*c, col@)),
{
    match col {
        RowsColumn::Typed(t) => make_typed(t),
        RowsColumn::Blobs(refs) => make_blobs(c, &refs),
        RowsColumn::Lists { rows, dim } => {
            if dim as u64 * 4 > usize::MAX as u64 {
                return Err(ScanError::LengthOverflow);
            }
            make_picked_lists(c, &rows, dim)
        },
        RowsColumn::Other(cells) => make_texts(get_shown_texts(&cells), false),
    }
}

/// Columns of a batch that is being put together.
pub struct Columns {
    pub names: Vec<(String, bool)>,
    pub arrays: Vec<ArrayData>,
}

impl View for Columns {
    type V = Seq<FieldSeq>;

    open spec fn view(&self) -> Seq<FieldSeq> {
        fields_from(self.names@, self.arrays@)
    }
}

impl Columns {
    /// Whether every array has a name.
    pub open spec fn wf(self) -> bool {
        self.names@.len() == self.arrays@.len()
    }

    fn new() -> (r: Columns)
        ensures
            r.wf(),
            r@ == Seq::<FieldSeq>::empty(),
    {
        let r: Columns = Columns { names: Vec::new(), arrays: Vec::new() };
        assert(r@ =~= Seq::<FieldSeq>::empty());
        r
    }

    fn push(&mut self, name: String, nullable: bool, a: ArrayData)
        requires
            old(self).wf(),
        ensures
            final(self).wf(),
            final(self)@ == old(self)@.push(
                FieldSeq {
                    name: name@,
                    nullable,
                    kind: array_kind(a),
                    cells: array_cells(a),
                },
            ),
    {
        let ghost before = self@;
        let ghost field = FieldSeq {
            name: name@,
            nullable,
            kind: array_kind(a),
            cells: array_cells(a),
        };
        self.names.push((name, nullable));
        self.arrays.push(a);
        assert(self@ =~= before.push(field));
    }

    fn push_ids(&mut self, ids: Vec<i64>)
        requires
            old(self).wf(),
        ensures
            final(self).wf(),
            final(self)@ == old(self)@.push(id_field(ids@)),
    {
        let a: ArrayData = int_array(ids, None);
        self.push("_id".to_owned(), false, a);
    }

    fn finish(self) -> (r: Result<Batch, ScanError>)
        requires
            self.wf(),
        ensures
            batch_is(r, finished(Ok(self@))),
    {
        match batch_try_new(self.names, self.arrays) {
            Err(_) => Err(ScanError::Batch),
            Ok(b) => Ok(b),
        }
    }
}

/// The column of identifiers.
pub open spec fn id_field(ids: Seq<i64>) -> FieldSeq {
    FieldSeq {
        name: "_id"@,
        nullable: false,
        kind: ArrayKind::Int64,
        cells: int_cells(ids, None),
    }
}

/// A batch of columns that were put together.
pub open spec fn finished(fields: Result<Seq<FieldSeq>, ScanError>) -> Result<
    Seq<FieldSeq>,
    ScanError,
> {
    match fields {
        Err(e) => Err(e),
        Ok(f) => if forms_batch(f) {
            Ok(f)
        } else {
            Err(ScanError::Batch)
        },
    }
}

/// Whether `r` is a batch with the columns of `want`.
pub open spec fn batch_is(r: Result<Batch, ScanError>, want: Result<Seq<FieldSeq>, ScanError>) -> bool {
    match r {
        Err(e) => want == Err::<Seq<FieldSeq>, ScanError>(e),
        Ok(b) => want == Ok::<Seq<FieldSeq>, ScanError>(batch_fields(b)),
    }
}

/// `head` followed by the first `k` columns, in all of which values may be missing. The first column
/// that cannot be built decides.
pub open spec fn fields_upto(
    head: Seq<FieldSeq>,
    cols: Seq<(Seq<char>, Result<Made, ScanError>)>,
    k: int,
) -> Result<Seq<FieldSeq>, ScanError>
    decreases k,
{
    if k <= 0 {
        Ok(head)
    } else {
        match (fields_upto(head, cols, k - 1), cols[k - 1].1) {
            (Err(e), _) => Err(e),
            (Ok(_), Err(e)) => Err(e),
            (Ok(s), Ok(m)) => Ok(
                s.push(
                    FieldSeq { name: cols[k - 1].0, nullable: true, kind: m.kind, cells: m.cells },
                ),
            ),
        }
    }
}

proof fn fields_failed(
    head: Seq<FieldSeq>,
    cols: Seq<(Seq<char>, Result<Made, ScanError>)>,
    j: int,
    k: int,
)
    requires
        0 <= j <= k,
        fields_upto(head, cols, j) is Err,
    ensures
        fields_upto(head, cols, k) == fields_upto(head, cols, j),
    decreases k,
{
    if j < k {
        fields_failed(head, cols, j, k - 1);
    }
}

/// The identifiers, where they are shown.
pub open spec fn head_of(with_id: bool, ids: Seq<i64>) -> Seq<FieldSeq> {
    if with_id {
        seq![id_field(ids)]
    } else {
        Seq::empty()
    }
}

fn make_head(with_id: bool, ids: Vec<i64>) -> (r: Columns)
    ensures
        r.wf(),
        r@ == head_of(with_id, ids@),
{
    let mut cols: Columns = Columns::new();
    if with_id {
        cols.push_ids(ids);
        assert(cols@ =~= head_of(true, ids@));
    }
    cols
}

/// A batch of typed columns behind `head`.
pub open spec fn typed_batch(head: Seq<FieldSeq>, columns: Seq<(Seq<char>, BatchColumnSeq)>) -> Result<
    Seq<FieldSeq>,
    ScanError,
> {
    let cols = Seq::new(columns.len(), |i: int| (columns[i].0, typed_made(columns[i].1)));
    finished(fields_upto(head, cols, cols.len() as int))
}

fn finish_typed(head: Columns, columns: Vec<(String, MmapBatchColumn)>) -> (r: Result<Batch, ScanError>)
    requires
        head.wf(),
    ensures
        batch_is(r, typed_batch(head@, crate::retrieve::typed_columns_view(columns@))),
{
    let ghost start = head@;
    let ghost all = crate::retrieve::typed_columns_view(columns@);
    let ghost cols = Seq::new(all.len(), |i: int| (all[i].0, typed_made(all[i].1)));
    let ghost given = columns@;
    let mut out: Columns = head;
    let mut rest: Vec<(String, MmapBatchColumn)> = columns;
    let ghost mut k: int = 0;
    while rest.len() > 0
        invariant
            out.wf(),
            start == head@,
            given == columns@,
            0 <= k <= given.len(),
            rest@ == given.subrange(k, given.len() as int),
            all == crate::retrieve::typed_columns_view(given),
            cols == Seq::new(all.len(), |i: int| (all[i].0, typed_made(all[i].1))),
            fields_upto(start, cols, k) == Ok::<Seq<FieldSeq>, ScanError>(out@),
        decreases rest@.len(),
    {
        let (name, col): (String, MmapBatchColumn) = rest.remove(0);
        proof {
            assert(given.subrange(k, given.len() as int)[0] == given[k]);
            assert(rest@ =~= given.subrange(k + 1, given.len() as int));
            assert(cols[k] == (name@, typed_made(col@)));
        }
        match make_typed(col) {
            Err(e) => {
                proof {
                    fields_failed(start, cols, k + 1, cols.len() as int);
                }
                return Err(e);
            },
            Ok(a) => {
                out.push(name, true, a);
            },
        }
        proof {
            k = k + 1;
        }
    }
    out.finish()
}

/// A batch of described arrays behind `head`.
pub open spec fn described_batch<C: ColumnCodec>(
    c: C,
    head: Seq<FieldSeq>,
    columns: Seq<(Seq<char>, ArraySeq)>,
) -> Result<Seq<FieldSeq>, ScanError> {
    let cols = Seq::new(columns.len(), |i: int| (columns[i].0, array_made(c, columns[i].1)));
    finished(fields_upto(head, cols, cols.len() as int))
}

fn finish_described<C: ColumnCodec>(
    c: &C,
    head: Columns,
    columns: Vec<(String, ArrayDesc)>,
) -> (r: Result<Batch, ScanError>)
    requires
        head.wf(),
    ensures
        batch_is(r, described_batch(*c, head@, crate::batch::arrays_view(columns@))),
{
    let ghost start = head@;
    let ghost all = crate::batch::arrays_view(columns@);
    let ghost cols = Seq::new(all.len(), |i: int| (all[i].0, array_made(*c, all[i].1)));
    let ghost given = columns@;
    let mut out: Columns = head;
    let mut rest: Vec<(String, ArrayDesc)> = columns;
    let ghost mut k: int = 0;
    while rest.len() > 0
        invariant
            out.wf(),
            start == head@,
            given == columns@,
            0 <= k <= given.len(),
            rest@ == given.subrange(k, given.len() as int),
            all == crate::batch::arrays_view(given),
            cols == Seq::new(all.len(), |i: int| (all[i].0, array_made(*c, all[i].1))),
            fields_upto(start, cols, k) == Ok::<Seq<FieldSeq>, ScanError>(out@),
        decreases rest@.len(),
    {
        let (name, d): (String, ArrayDesc) = rest.remove(0);
        proof {
            assert(given.subrange(k, given.len() as int)[0] == given[k]);
            assert(rest@ =~= given.subrange(k + 1, given.len() as int));
            assert(cols[k] == (name@, array_made(*c, d@)));
        }
        match make_array_of(c, d) {
            Err(e) => {
                proof {
                    fields_failed(start, cols, k + 1, cols.len() as int);
                }
                return Err(e);
            },
            Ok(a) => {
                out.push(name, true, a);
            },
        }
        proof {
            k = k + 1;
        }
    }
    out.finish()
}

/// A batch of columns that were picked row by row, behind `head`.
pub open spec fn picked_batch<C: ColumnCodec>(
    c: C,
    head: Seq<FieldSeq>,
    columns: Seq<(Seq<char>, RowsColumnSeq)>,
) -> Result<Seq<FieldSeq>, ScanError> {
    let cols = Seq::new(columns.len(), |i: int| (columns[i].0, rows_made(c, columns[i].1)));
    finished(fields_upto(head, cols, cols.len() as int))
}

fn finish_picked<C: ColumnCodec>(
    c: &C,
    head: Columns,
    columns: Vec<(String, RowsColumn)>,
) -> (r: Result<Batch, ScanError>)
    requires
        head.wf(),
    ensures
        batch_is(r, picked_batch(*c, head@, crate::row_batch::rows_columns_view(columns@))),
{
    let ghost start = head@;
    let ghost all = crate::row_batch::rows_columns_view(columns@);
    let ghost cols = Seq::new(all.len(), |i: int| (all[i].0, rows_made(*c, all[i].1)));
    let ghost given = columns@;
    let mut out: Columns = head;
    let mut rest: Vec<(String, RowsColumn)> = columns;
    let ghost mut k: int = 0;
    while rest.len() > 0
        invariant
            out.wf(),
            start == head@,
            given == columns@,
            0 <= k <= given.len(),
            rest@ == given.subrange(k, given.len() as int),
            all == crate::row_batch::rows_columns_view(given),
            cols == Seq::new(all.len(), |i: int| (all[i].0, rows_made(*c, all[i].1))),
            fields_upto(start, cols, k) == Ok::<Seq<FieldSeq>, ScanError>(out@),
        decreases rest@.len(),
    {
        let (name, col): (String, RowsColumn) = rest.remove(0);
        proof {
            assert(given.subrange(k, given.len() as int)[0] == given[k]);
            assert(rest@ =~= given.subrange(k + 1, given.len() as int));
            assert(cols[k] == (name@, rows_made(*c, col@)));
        }
        match make_rows(c, col) {
            Err(e) => {
                proof {
                    fields_failed(start, cols, k + 1, cols.len() as int);
                }
                return Err(e);
            },
            Ok(a) => {
                out.push(name, true, a);
            },
        }
        proof {
            k = k + 1;
        }
    }
    out.finish()
}

/// The type of an empty array.
pub open spec fn empty_kind(t: FieldType) -> ArrayKind {
    match t {
        FieldType::Int64 => ArrayKind::Int64,
        FieldType::Float64 => ArrayKind::Float64,
        FieldType::Boolean => ArrayKind::Boolean,
        FieldType::Utf8 => ArrayKind::Utf8,
    }
}

/// Columns without rows.
pub open spec fn empty_columns(fields: Seq<(Seq<char>, FieldType)>) -> Seq<FieldSeq> {
    Seq::new(
        fields.len(),
        |i: int|
            FieldSeq {
                name: fields[i].0,
                nullable: true,
                kind: empty_kind(fields[i].1),
                cells: Seq::empty(),
            },
    )
}

fn make_empty(t: FieldType) -> (r: ArrayData)
    ensures
        array_kind(r) == empty_kind(t),
        array_cells(r) == Seq::<Option<CellSeq>>::empty(),
{
    match t {
        FieldType::Int64 => {
            let a: ArrayData = int_array(Vec::new(), None);
            assert(array_cells(a) =~= Seq::<Option<CellSeq>>::empty());
            a
        },
        FieldType::Float64 => {
            let a: ArrayData = real_array(Vec::new(), None);
            assert(array_cells(a) =~= Seq::<Option<CellSeq>>::empty());
            a
        },
        FieldType::Boolean => {
            let a: ArrayData = truth_array(Vec::new());
            assert(array_cells(a) =~= Seq::<Option<CellSeq>>::empty());
            a
        },
        FieldType::Utf8 => {
            let none: Vec<Option<String>> = Vec::new();
            assert(opt_texts_view(none@) =~= Seq::<Option<Seq<char>>>::empty());
            let a: ArrayData = text_array(none);
            assert(array_cells(a) =~= Seq::<Option<CellSeq>>::empty());
            a
        },
    }
}

/// The columns of a described batch.
pub open spec fn batch_made<C: ColumnCodec>(c: C, b: BatchSeq) -> Result<Seq<FieldSeq>, ScanError> {
    match b {
        BatchSeq::Empty { with_id, fields } => Ok(
            head_of(with_id, Seq::empty()) + empty_columns(fields),
        ),
        BatchSeq::Rows { with_id, ids, columns } => described_batch(
            c,
            head_of(with_id, ids),
            columns,
        ),
    }
}

fn make_empty_batch(with_id: bool, fields: &Vec<(String, FieldType)>) -> (r: Result<Batch, ScanError>)
    ensures
        batch_is(
            r,
            Ok(head_of(with_id, Seq::empty()) + empty_columns(crate::batch::fields_view(fields@))),
        ),
{
    let ghost all = crate::batch::fields_view(fields@);
    let ghost head = head_of(with_id, Seq::empty());
    if !with_id && fields.len() == 0 {
        assert(head + empty_columns(all) =~= Seq::<FieldSeq>::empty());
        return Ok(batch_without_fields());
    }
    let mut out: Columns = make_head(with_id, Vec::new());
    let mut i: usize = 0;
    assert(out@ =~= head + empty_columns(all).take(0));
    while i < fields.len()
        invariant
            i <= fields@.len(),
            out.wf(),
            all == crate::batch::fields_view(fields@),
            out@ == head + empty_columns(all).take(i as int),
        decreases fields@.len() - i,
    {
        let ghost before = out@;
        let a: ArrayData = make_empty(fields[i].1);
        out.push(fields[i].0.as_str().to_owned(), true, a);
        proof {
            assert(empty_columns(all).take(i + 1) =~= empty_columns(all).take(i as int).push(
                empty_columns(all)[i as int],
            ));
            assert(out@ =~= head + empty_columns(all).take(i + 1));
        }
        i = i + 1;
    }
    proof {
        assert(empty_columns(all).take(all.len() as int) =~= empty_columns(all));
        let f = out@;
        assert forall|k: int| 0 <= k < f.len() implies (#[trigger] f[k]).cells.len() == 0 by {
            if k >= head.len() {
                assert(f[k] == empty_columns(all)[k - head.len()]);
            }
        }
        assert(forms_batch(f));
    }
    out.finish()
}

/// Builds the batch behind a description.
pub fn describe_to_arrow<C: ColumnCodec>(c: &C, b: BatchDesc) -> (r: Result<Batch, ScanError>)
    ensures
        batch_is(r, batch_made(*c, b@)),
{
    match b {
        BatchDesc::Empty { with_id, fields } => make_empty_batch(with_id, &fields),
        BatchDesc::Rows { with_id, ids, columns } => {
            let head: Columns = make_head(with_id, ids);
            finish_described(c, head, columns)
        },
    }
}

/// The columns of rows that were asked for by number.
pub open spec fn rows_batch_made<C: ColumnCodec>(c: C, b: RowsBatchSeq) -> Result<
    Seq<FieldSeq>,
    ScanError,
> {
    match b {
        RowsBatchSeq::NoFields => Ok(Seq::empty()),
        RowsBatchSeq::Rows { with_id, ids, columns } => picked_batch(
            c,
            head_of(with_id, ids),
            columns,
        ),
    }
}

/// Builds the batch of rows that were asked for by number.
pub fn rows_to_arrow<C: ColumnCodec>(c: &C, b: RowsBatch) -> (r: Result<Batch, ScanError>)
    ensures
        batch_is(r, rows_batch_made(*c, b@)),
{
    match b {
        RowsBatch::NoFields => Ok(batch_without_fields()),
        RowsBatch::Rows { with_id, ids, columns } => {
            let head: Columns = make_head(with_id, ids);
            finish_picked(c, head, columns)
        },
    }
}

/// The columns of matching rows.
pub open spec fn like_batch_made(b: LikeBatchSeq) -> Result<Seq<FieldSeq>, ScanError> {
    typed_batch(head_of(true, b.ids), b.columns)
}

/// Builds the batch of matching rows.
pub fn like_to_arrow(b: LikeBatch) -> (r: Result<Batch, ScanError>)
    ensures
        batch_is(r, like_batch_made(b@)),
{
    let head: Columns = make_head(true, b.ids);
    finish_typed(head, b.columns)
}

/// The columns of rows that were found: none where no row was.
pub open spec fn columns_made(b: BatchColumnsSeq) -> Result<Seq<FieldSeq>, ScanError> {
    if b.row_count == 0 {
        Ok(Seq::empty())
    } else {
        typed_batch(Seq::empty(), b.columns)
    }
}

/// Whether `r` is a batch with the columns of `want`, if there is one.
pub open spec fn batch_or_none(
    r: Result<Option<Batch>, ScanError>,
    want: Result<Option<Seq<FieldSeq>>, ScanError>,
) -> bool {
    match r {
        Err(e) => want == Err::<Option<Seq<FieldSeq>>, ScanError>(e),
        Ok(None) => want == Ok::<Option<Seq<FieldSeq>>, ScanError>(None),
        Ok(Some(b)) => want == Ok::<Option<Seq<FieldSeq>>, ScanError>(Some(batch_fields(b))),
    }
}

/// Groups as an answer.
pub open spec fn group_answer(
    group_col: Seq<char>,
    got: Result<Option<Seq<(Seq<char>, F64)>>, ScanError>,
) -> Result<Option<Seq<FieldSeq>>, ScanError> {
    match got {
        Err(e) => Err(e),
        Ok(None) => Ok(None),
        Ok(Some(v)) => answered(group_columns(group_col, v)),
    }
}

/// Columns as an answer.
pub open spec fn answered(fields: Result<Seq<FieldSeq>, ScanError>) -> Result<
    Option<Seq<FieldSeq>>,
    ScanError,
> {
    match fields {
        Err(e) => Err(e),
        Ok(f) => Ok(Some(f)),
    }
}

fn answer(r: Result<Batch, ScanError>) -> (a: Result<Option<Batch>, ScanError>)
    ensures
        forall|want: Result<Seq<FieldSeq>, ScanError>| #[trigger]
            batch_is(r, want) ==> batch_or_none(a, answered(want)),
{
    match r {
        Err(e) => Err(e),
        Ok(b) => Ok(Some(b)),
    }
}

/// The keys of groups.
pub open spec fn keys_of(results: Seq<(Seq<char>, F64)>) -> Seq<Option<Seq<char>>> {
    Seq::new(results.len(), |i: int| Some(results[i].0))
}

/// The values of groups.
pub open spec fn values_of(results: Seq<(Seq<char>, F64)>) -> Seq<F64> {
    Seq::new(results.len(), |i: int| results[i].1)
}

/// The columns of groups: their keys under the name of the column that they come from, and their
/// values. None of them is missing.
pub open spec fn group_columns(group_col: Seq<char>, results: Seq<(Seq<char>, F64)>) -> Result<
    Seq<FieldSeq>,
    ScanError,
> {
    match texts_made(keys_of(results), false) {
        Err(e) => Err(e),
        Ok(m) => Ok(
            seq![
                FieldSeq { name: group_col, nullable: false, kind: m.kind, cells: m.cells },
                FieldSeq {
                    name: "agg_result"@,
                    nullable: false,
                    kind: ArrayKind::Float64,
                    cells: real_cells(values_of(results), None),
                },
            ],
        ),
    }
}

/// Builds the batch of groups.
pub fn groups_to_arrow(group_col: &str, results: Vec<(String, F64)>) -> (r: Result<Batch, ScanError>)
    ensures
        batch_is(r, group_columns(group_col@, results_view(results@))),
{
    let ghost all = results_view(results@);
    let mut keys: Vec<Option<String>> = Vec::with_capacity(results.len());
    let mut values: Vec<F64> = Vec::with_capacity(results.len());
    let mut i: usize = 0;
    while i < results.len()
        invariant
            i <= results@.len(),
            all == results_view(results@),
            keys@.len() == i,
            values@.len() == i,
            forall|k: int|
                0 <= k < i ==> text_view(#[trigger] keys@[k]) == Some(all[k].0) && values@[k]
                    == all[k].1,
        decreases results@.len() - i,
    {
        keys.push(Some(results[i].0.as_str().to_owned()));
        values.push(results[i].1);
        i = i + 1;
    }
    proof {
        assert forall|k: int| 0 <= k < keys@.len() implies #[trigger] opt_texts_view(keys@)[k]
            == keys_of(all)[k] by {
            assert(text_view(keys@[k]) == Some(all[k].0));
        }
        assert(opt_texts_view(keys@) =~= keys_of(all));
        assert forall|k: int| 0 <= k < values@.len() implies #[trigger] values@[k] == values_of(
            all,
        )[k] by {
            assert(text_view(keys@[k]) == Some(all[k].0));
        }
        assert(values@ =~= values_of(all));
    }
    let texts: ArrayData = match make_texts(keys, false) {
        Err(e) => {
            return Err(e);
        },
        Ok(a) => a,
    };
    let mut out: Columns = Columns::new();
    out.push(group_col.to_owned(), false, texts);
    let numbers: ArrayData = real_array(values, None);
    out.push("agg_result".to_owned(), false, numbers);
    proof {
        let f = out@;
        assert(f =~= group_columns(group_col@, all)->Ok_0);
        assert(forms_batch(f));
    }
    out.finish()
}

impl<C: ColumnCodec> OnDemandStorage<C> {
    /// The columns of a batch of live rows, with pending edits laid over them. Texts are not put behind
    /// a dictionary where edits are pending.
    pub open spec fn arrow_range(
        self,
        names: Option<Seq<Seq<char>>>,
        with_id: bool,
        offset: int,
        limit: Option<usize>,
        dict: bool,
        edits: Seq<EditSeq>,
    ) -> Result<Option<Seq<FieldSeq>>, ScanError> {
        match self.batch_range(names, with_id, offset, limit, dict && edits.len() == 0) {
            Err(e) => Err(e),
            Ok(None) => Ok(None),
            Ok(Some(b)) => answered(batch_made(self.codec, overlaid(b, edits))),
        }
    }

    /// Reads the live rows from `row_offset` on, at most `row_limit` of them, as a batch, with pending
    /// edits laid over it.
    pub fn to_arrow_batch_mmap_range(
        &self,
        column_names: Option<&[&str]>,
        include_id: bool,
        row_offset: usize,
        row_limit: Option<usize>,
        dict_encode_strings: bool,
        edits: &[CellEdit],
    ) -> (r: Result<Option<Batch>, ScanError>)
        requires
            self.wf(),
        ensures
            batch_or_none(
                r,
                self.arrow_range(
                    names_view(column_names),
                    include_id,
                    row_offset as int,
                    row_limit,
                    dict_encode_strings,
                    edits_view(edits@),
                ),
            ),
    {
        match self.describe_batch_range(
            column_names,
            include_id,
            row_offset,
            row_limit,
            dict_encode_strings && edits.len() == 0,
        ) {
            Err(e) => Err(e),
            Ok(None) => Ok(None),
            Ok(Some(b)) => answer(describe_to_arrow(&self.codec, overlay(b, edits))),
        }
    }

    /// Reads the first live rows, at most `row_limit` of them, as a batch, with pending edits laid over
    /// it.
    pub fn to_arrow_batch_mmap(
        &self,
        column_names: Option<&[&str]>,
        include_id: bool,
        row_limit: Option<usize>,
        dict_encode_strings: bool,
        edits: &[CellEdit],
    ) -> (r: Result<Option<Batch>, ScanError>)
        requires
            self.wf(),
        ensures
            batch_or_none(
                r,
                self.arrow_range(
                    names_view(column_names),
                    include_id,
                    0,
                    row_limit,
                    dict_encode_strings,
                    edits_view(edits@),
                ),
            ),
    {
        self.to_arrow_batch_mmap_range(
            column_names,
            include_id,
            0,
            row_limit,
            dict_encode_strings,
            edits,
        )
    }

    /// The columns of rows with given numbers.
    pub open spec fn arrow_rows(self, indices: Seq<usize>, names: Option<Seq<Seq<char>>>) -> Result<
        Option<Seq<FieldSeq>>,
        ScanError,
    > {
        match self.rows_batch(indices, names) {
            Err(e) => Err(e),
            Ok(None) => Ok(None),
            Ok(Some(b)) => answered(rows_batch_made(self.codec, b)),
        }
    }

    /// Reads the rows with the given numbers as a batch.
    pub fn extract_rows_by_indices_to_arrow(&self, indices: &[usize], col_refs: Option<&[&str]>) -> (r:
        Result<Option<Batch>, ScanError>)
        requires
            self.wf(),
        ensures
            batch_or_none(r, self.arrow_rows(indices@, names_view(col_refs))),
    {
        match self.describe_rows_by_indices(indices, col_refs) {
            Err(e) => Err(e),
            Ok(None) => Ok(None),
            Ok(Some(b)) => answer(rows_to_arrow(&self.codec, b)),
        }
    }

    /// The columns of rows whose string matches a pattern.
    pub open spec fn arrow_like(
        self,
        col_name: Seq<char>,
        pattern: Seq<char>,
        limit: Option<usize>,
    ) -> Result<Option<Seq<FieldSeq>>, ScanError> {
        match self.like_extract(col_name, pattern, limit) {
            Err(e) => Err(e),
            Ok(None) => Ok(None),
            Ok(Some(b)) => answered(like_batch_made(b)),
        }
    }

    /// Finds the rows whose string matches a pattern and reads all their columns as a batch.
    pub fn scan_like_and_extract_mmap(&self, col_name: &str, pattern: &str, limit: Option<usize>) -> (r:
        Result<Option<Batch>, ScanError>)
        ensures
            batch_or_none(r, self.arrow_like(col_name@, pattern@, limit)),
    {
        match self.describe_like_rows(col_name, pattern, limit) {
            Err(e) => Err(e),
            Ok(None) => Ok(None),
            Ok(Some(b)) => answer(like_to_arrow(b)),
        }
    }

    /// Builds the batch of rows that were found.
    pub fn mmap_batch_columns_to_arrow(batch_cols: MmapBatchColumns) -> (r: Result<
        Option<Batch>,
        ScanError,
    >)
        ensures
            batch_or_none(r, answered(columns_made(batch_cols@))),
    {
        if batch_cols.row_count == 0 {
            return Ok(Some(batch_without_fields()));
        }
        answer(finish_typed(Columns::new(), batch_cols.columns))
    }

    /// Groups the rows whose `filter_col` is `filter_val` by `group_col`, as a batch. `finish` gives the
    /// value of a group. The groups come in the order of their values, the first `offset` of them left
    /// out and at most `limit` of the rest; there is no answer where none is left.
    pub fn execute_filter_group_order<F: Fn(&GroupTally) -> F64>(
        &self,
        filter_col: &str,
        filter_val: &str,
        group_col: &str,
        agg_col: Option<&str>,
        finish: F,
        descending: bool,
        limit: usize,
        offset: usize,
    ) -> (r: Result<Option<Batch>, ScanError>)
        requires
            self.wf(),
            forall|t: &GroupTally| #[trigger] finish.requires((t,)),
        ensures
            exists|got: Result<Option<Seq<(Seq<char>, F64)>>, ScanError>|
                {
                    &&& #[trigger] grouped(
                        finish,
                        self.group_tallies(
                            filter_col@,
                            vstd::utf8::encode_utf8(filter_val@),
                            group_col@,
                            crate::lengths::name_view(agg_col),
                        ),
                        descending,
                        offset as int,
                        limit as int,
                        got,
                    )
                    &&& batch_or_none(r, group_answer(group_col@, got))
                },
    {
        let found: Result<Option<Vec<(String, F64)>>, ScanError> = self.filter_group_order(
            filter_col,
            filter_val,
            group_col,
            agg_col,
            finish,
            descending,
            limit,
            offset,
        );
        let ghost got = groups_view(found);
        match found {
            Err(e) => Err(e),
            Ok(None) => Ok(None),
            Ok(Some(v)) => answer(groups_to_arrow(group_col, v)),
        }
    }

    /// The columns of rows with given identifiers.
    pub open spec fn arrow_known(self, ids: Seq<u64>) -> Result<
        Option<Seq<FieldSeq>>,
        ScanError,
    > {
        match self.known_rows(ids, None) {
            Err(e) => Err(e),
            Ok(None) => Ok(None),
            Ok(Some(b)) => answered(columns_made(b)),
        }
    }

    /// Reads the live rows with the given identifiers as a batch, without those that are pending
    /// deletion.
    pub fn retrieve_many_mmap(&self, ids: &[u64], pending: &[u64]) -> (r: Result<
        Option<Batch>,
        ScanError,
    >)
        ensures
            batch_or_none(
                r,
                self.arrow_known(visible_ids(ids@, pending@, ids@.len() as int)),
            ),
    {
        match self.retrieve_many_mmap_columns_visible(ids, pending) {
            Err(e) => Err(e),
            Ok(None) => Ok(None),
            Ok(Some(b)) => Self::mmap_batch_columns_to_arrow(b),
        }
    }

    /// Reads the live rows with the given identifiers as a batch, as they were written to the file.
    pub fn retrieve_many_mmap_persisted(&self, ids: &[u64]) -> (r: Result<Option<Batch>, ScanError>)
        ensures
            batch_or_none(r, self.arrow_known(ids@)),
    {
        match self.retrieve_many_mmap_columns(ids) {
            Err(e) => Err(e),
            Ok(None) => Ok(None),
            Ok(Some(b)) => Self::mmap_batch_columns_to_arrow(b),
        }
    }
}

} // verus!
