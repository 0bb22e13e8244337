//! Edits of single cells that are pending, laid over a batch.

use vstd::prelude::*;

use crate::arrays::{
    get_low_half, low_half, opt_bytes_view, opt_texts_view, valid_view, ArrayDesc, ArraySeq,
};
use crate::batch::{arrays_view, BatchDesc, BatchSeq};
use crate::bytes::{as_signed, signed};
use crate::double::F64;
use crate::model::str_eq;

verus! {

/// What an edit puts into a cell.
#[derive(Debug, PartialEq, Eq)]
pub enum EditValue {
    Null,
    Int(i64),
    Real(F64),
    Truth(bool),
    Text(String),
    Bytes(Vec<u8>),
}

/// What an edit puts into a cell, as sequences.
pub enum ValueSeq {
    Null,
    Int(i64),
    Real(F64),
    Truth(bool),
    Text(Seq<char>),
    Bytes(Seq<u8>),
}

impl View for EditValue {
    type V = ValueSeq;

    open spec fn view(&self) -> ValueSeq {
        match *self {
            EditValue::Null => ValueSeq::Null,
            EditValue::Int(v) => ValueSeq::Int(v),
            EditValue::Real(v) => ValueSeq::Real(v),
            EditValue::Truth(b) => ValueSeq::Truth(b),
            EditValue::Text(t) => ValueSeq::Text(t@),
            EditValue::Bytes(b) => ValueSeq::Bytes(b@),
        }
    }
}

/// A pending edit of the cell of one column in the row with an identifier.
#[derive(Debug, PartialEq, Eq)]
pub struct CellEdit {
    pub id: u64,
    pub column: String,
    pub value: EditValue,
}

/// A pending edit, as sequences.
pub struct EditSeq {
    pub id: u64,
    pub column: Seq<char>,
    pub value: ValueSeq,
}

impl View for CellEdit {
    type V = EditSeq;

    open spec fn view(&self) -> EditSeq {
        EditSeq { id: self.id, column: self.column@, value: self.value@ }
    }
}

/// Pending edits as sequences.
pub open spec fn edits_view(v: Seq<CellEdit>) -> Seq<EditSeq> {
    Seq::new(v.len(), |i: int| v[i]@)
}

/// Which of `n` entries are there once entry `j` is there or not.
pub open spec fn marked_valid(valid: Option<Seq<bool>>, n: nat, j: int, there: bool) -> Option<
    Seq<bool>,
> {
    match valid {
        None => if there {
            None
        } else {
            Some(Seq::new(n, |i: int| i != j))
        },
        Some(b) => Some(
            if j < b.len() {
                b.update(j, there)
            } else {
                b
            },
        ),
    }
}

/// An array with entry `j` put to a value. A value that does not suit the array, and an entry beyond
/// its end, leave it as it is.
pub open spec fn put(a: ArraySeq, j: int, v: ValueSeq) -> ArraySeq {
    match (a, v) {
        (ArraySeq::Int64 { values, valid }, ValueSeq::Int(x)) if j < values.len() =>
            ArraySeq::Int64 {
            values: values.update(j, x),
            valid: marked_valid(valid, values.len(), j, true),
        },
        (ArraySeq::Int64 { values, valid }, ValueSeq::Null) if j < values.len() => ArraySeq::Int64 {
            values,
            valid: marked_valid(valid, values.len(), j, false),
        },
        (ArraySeq::Timestamp { values, valid }, ValueSeq::Int(x)) if j < values.len() =>
            ArraySeq::Timestamp {
            values: values.update(j, x),
            valid: marked_valid(valid, values.len(), j, true),
        },
        (ArraySeq::Timestamp { values, valid }, ValueSeq::Null) if j < values.len() =>
            ArraySeq::Timestamp {
            values,
            valid: marked_valid(valid, values.len(), j, false),
        },
        (ArraySeq::Date { values, valid }, ValueSeq::Int(x)) if j < values.len() => ArraySeq::Date {
            values: values.update(j, low_half(x as int)),
            valid: marked_valid(valid, values.len(), j, true),
        },
        (ArraySeq::Date { values, valid }, ValueSeq::Null) if j < values.len() => ArraySeq::Date {
            values,
            valid: marked_valid(valid, values.len(), j, false),
        },
        (ArraySeq::Float64 { values, valid }, ValueSeq::Real(x)) if j < values.len() =>
            ArraySeq::Float64 {
            values: values.update(j, x),
            valid: marked_valid(valid, values.len(), j, true),
        },
        (ArraySeq::Float64 { values, valid }, ValueSeq::Null) if j < values.len() =>
            ArraySeq::Float64 {
            values,
            valid: marked_valid(valid, values.len(), j, false),
        },
        (ArraySeq::Bool { values }, ValueSeq::Truth(b)) if j < values.len() => ArraySeq::Bool {
            values: values.update(j, Some(b)),
        },
        (ArraySeq::Bool { values }, ValueSeq::Null) if j < values.len() => ArraySeq::Bool {
            values: values.update(j, None),
        },
        (ArraySeq::Utf8 { values, large }, ValueSeq::Text(t)) if j < values.len() => ArraySeq::Utf8 {
            values: values.update(j, Some(t)),
            large,
        },
        (ArraySeq::Utf8 { values, large }, ValueSeq::Null) if j < values.len() => ArraySeq::Utf8 {
            values: values.update(j, None),
            large,
        },
        (ArraySeq::Binary { values, large }, ValueSeq::Bytes(b)) if j < values.len() =>
            ArraySeq::Binary { values: values.update(j, Some(b)), large },
        (ArraySeq::Binary { values, large }, ValueSeq::Null) if j < values.len() =>
            ArraySeq::Binary { values: values.update(j, None), large },
        _ => a,
    }
}

fn mark_valid(valid: Option<Vec<bool>>, n: usize, j: usize, there: bool) -> (r: Option<Vec<bool>>)
    requires
        j < n,
    ensures
        valid_view(r) == marked_valid(valid_view(valid), n as nat, j as int, there),
{
    match valid {
        None => {
            if there {
                return None;
            }
            let mut out: Vec<bool> = Vec::with_capacity(n);
            let mut i: usize = 0;
            while i < n
                invariant
                    i <= n,
                    out@ =~= Seq::new(i as nat, |k: int| k != j),
                decreases n - i,
            {
                out.push(i != j);
                i = i + 1;
            }
            Some(out)
        },
        Some(b) => {
            let mut out: Vec<bool> = b;
            if j < out.len() {
                out.set(j, there);
            }
            Some(out)
        },
    }
}

fn set_number(values: Vec<i64>, j: usize, v: i64) -> (r: Vec<i64>)
    requires
        j < values@.len(),
    ensures
        r@ == values@.update(j as int, v),
{
    let mut out: Vec<i64> = values;
    out.set(j, v);
    out
}

fn set_text(values: Vec<Option<String>>, j: usize, v: Option<&str>) -> (r: Vec<Option<String>>)
    requires
        j < values@.len(),
    ensures
        opt_texts_view(r@) == opt_texts_view(values@).update(
            j as int,
            match v {
                None => None,
                Some(t) => Some(t@),
            },
        ),
{
    let ghost was = opt_texts_view(values@);
    let mut out: Vec<Option<String>> = values;
    let now: Option<String> = match v {
        None => None,
        Some(t) => Some(t.to_owned()),
    };
    out.set(j, now);
    assert(opt_texts_view(out@) =~= was.update(
        j as int,
        match v {
            None => None,
            Some(t) => Some(t@),
        },
    ));
    out
}

fn set_bytes(values: Vec<Option<Vec<u8>>>, j: usize, v: Option<&Vec<u8>>) -> (r: Vec<
    Option<Vec<u8>>,
>)
    requires
        j < values@.len(),
    ensures
        opt_bytes_view(r@) == opt_bytes_view(values@).update(
            j as int,
            match v {
                None => None,
                Some(b) => Some(b@),
            },
        ),
{
    let ghost was = opt_bytes_view(values@);
    let mut out: Vec<Option<Vec<u8>>> = values;
    let now: Option<Vec<u8>> = match v {
        None => None,
        Some(b) => Some(vstd::slice::slice_to_vec(b.as_slice())),
    };
    out.set(j, now);
    assert(opt_bytes_view(out@) =~= was.update(
        j as int,
        match v {
            None => None,
            Some(b) => Some(b@),
        },
    ));
    out
}

/// Puts entry `j` of an array to a value.
fn put_value(a: ArrayDesc, j: usize, v: &EditValue) -> (r: ArrayDesc)
    ensures
        r@ == put(a@, j as int, v@),
{
    match (a, v) {
        (ArrayDesc::Int64 { values, valid }, EditValue::Int(x)) if j < values.len() => {
            let n: usize = values.len();
            ArrayDesc::Int64 {
                values: set_number(values, j, *x),
                valid: mark_valid(valid, n, j, true),
            }
        },
        (ArrayDesc::Int64 { values, valid }, EditValue::Null) if j < values.len() => {
            let n: usize = values.len();
            ArrayDesc::Int64 { values, valid: mark_valid(valid, n, j, false) }
        },
        (ArrayDesc::Timestamp { values, valid }, EditValue::Int(x)) if j < values.len() => {
            let n: usize = values.len();
            ArrayDesc::Timestamp {
                values: set_number(values, j, *x),
                valid: mark_valid(valid, n, j, true),
            }
        },
        (ArrayDesc::Timestamp { values, valid }, EditValue::Null) if j < values.len() => {
            let n: usize = values.len();
            ArrayDesc::Timestamp { values, valid: mark_valid(valid, n, j, false) }
        },
        (ArrayDesc::Date { values, valid }, EditValue::Int(x)) if j < values.len() => {
            let n: usize = values.len();
            let mut days: Vec<i32> = values;
            days.set(j, get_low_half(*x));
            ArrayDesc::Date { values: days, valid: mark_valid(valid, n, j, true) }
        },
        (ArrayDesc::Date { values, valid }, EditValue::Null) if j < values.len() => {
            let n: usize = values.len();
            ArrayDesc::Date { values, valid: mark_valid(valid, n, j, false) }
        },
        (ArrayDesc::Float64 { values, valid }, EditValue::Real(x)) if j < values.len() => {
            let n: usize = values.len();
            let mut reals: Vec<F64> = values;
            reals.set(j, *x);
            ArrayDesc::Float64 { values: reals, valid: mark_valid(valid, n, j, true) }
        },
        (ArrayDesc::Float64 { values, valid }, EditValue::Null) if j < values.len() => {
            let n: usize = values.len();
            ArrayDesc::Float64 { values, valid: mark_valid(valid, n, j, false) }
        },
        (ArrayDesc::Bool { values }, EditValue::Truth(b)) if j < values.len() => {
            let mut bits: Vec<Option<bool>> = values;
            bits.set(j, Some(*b));
            ArrayDesc::Bool { values: bits }
        },
        (ArrayDesc::Bool { values }, EditValue::Null) if j < values.len() => {
            let mut bits: Vec<Option<bool>> = values;
            bits.set(j, None);
            ArrayDesc::Bool { values: bits }
        },
        (ArrayDesc::Utf8 { values, large }, EditValue::Text(t)) if j < values.len() =>
            ArrayDesc::Utf8 { values: set_text(values, j, Some(t.as_str())), large },
        (ArrayDesc::Utf8 { values, large }, EditValue::Null) if j < values.len() =>
            ArrayDesc::Utf8 { values: set_text(values, j, None), large },
        (ArrayDesc::Binary { values, large }, EditValue::Bytes(b)) if j < values.len() =>
            ArrayDesc::Binary { values: set_bytes(values, j, Some(b)), large },
        (ArrayDesc::Binary { values, large }, EditValue::Null) if j < values.len() =>
            ArrayDesc::Binary { values: set_bytes(values, j, None), large },
        (a, _) => a,
    }
}

/// An array with the entries of the row with an identifier put to a value, among the first `k` rows.
pub open spec fn put_rows(a: ArraySeq, ids: Seq<i64>, id: u64, v: ValueSeq, k: int) -> ArraySeq
    decreases k,
{
    if k <= 0 {
        a
    } else {
        let before = put_rows(a, ids, id, v, k - 1);
        if ids[k - 1] == signed(id as int) {
            put(before, k - 1, v)
        } else {
            before
        }
    }
}

fn put_in_rows(a: ArrayDesc, ids: &Vec<i64>, id: u64, v: &EditValue) -> (r: ArrayDesc)
    ensures
        r@ == put_rows(a@, ids@, id, v@, ids@.len() as int),
{
    let ghost was = a@;
    let target: i64 = as_signed(id);
    let mut out: ArrayDesc = a;
    let mut k: usize = 0;
    while k < ids.len()
        invariant
            k <= ids@.len(),
            target == signed(id as int),
            out@ == put_rows(was, ids@, id, v@, k as int),
        decreases ids@.len() - k,
    {
        if ids[k] == target {
            out = put_value(out, k, v);
        }
        k = k + 1;
    }
    out
}

/// Columns with one edit.
pub open spec fn columns_edited(
    columns: Seq<(Seq<char>, ArraySeq)>,
    ids: Seq<i64>,
    e: EditSeq,
) -> Seq<(Seq<char>, ArraySeq)> {
    Seq::new(
        columns.len(),
        |p: int|
            if columns[p].0 == e.column {
                (columns[p].0, put_rows(columns[p].1, ids, e.id, e.value, ids.len() as int))
            } else {
                columns[p]
            },
    )
}

/// Columns with the first `k` edits, one after the other.
pub open spec fn edited_upto(
    columns: Seq<(Seq<char>, ArraySeq)>,
    ids: Seq<i64>,
    edits: Seq<EditSeq>,
    k: int,
) -> Seq<(Seq<char>, ArraySeq)>
    decreases k,
{
    if k <= 0 {
        columns
    } else {
        columns_edited(edited_upto(columns, ids, edits, k - 1), ids, edits[k - 1])
    }
}

/// A batch with pending edits laid over it.
pub open spec fn overlaid(b: BatchSeq, edits: Seq<EditSeq>) -> BatchSeq {
    match b {
        BatchSeq::Empty { .. } => b,
        BatchSeq::Rows { with_id, ids, columns } => BatchSeq::Rows {
            with_id,
            ids,
            columns: edited_upto(columns, ids, edits, edits.len() as int),
        },
    }
}

fn edit_columns(columns: Vec<(String, ArrayDesc)>, ids: &Vec<i64>, e: &CellEdit) -> (r: Vec<
    (String, ArrayDesc),
>)
    ensures
        arrays_view(r@) == columns_edited(arrays_view(columns@), ids@, e@),
{
    let ghost was = arrays_view(columns@);
    let ghost want = columns_edited(was, ids@, e@);
    let mut rest: Vec<(String, ArrayDesc)> = columns;
    let mut out: Vec<(String, ArrayDesc)> = Vec::with_capacity(rest.len());
    let ghost all = rest@;
    let mut back: Vec<(String, ArrayDesc)> = Vec::with_capacity(rest.len());
    while rest.len() > 0
        invariant
            rest@.len() <= all.len(),
            rest@ == all.take(rest@.len() as int),
            back@.len() == all.len() - rest@.len(),
            forall|i: int|
                0 <= i < back@.len() ==> #[trigger] back@[i] == all[all.len() - 1 - i],
        decreases rest@.len(),
    {
        let ghost before = rest@;
        if let Some(x) = rest.pop() {
            assert(x == all[before.len() - 1]);
            back.push(x);
            assert(rest@ =~= all.take(rest@.len() as int));
        }
    }
    while back.len() > 0
        invariant
            back@.len() <= all.len(),
            was == arrays_view(all),
            want == columns_edited(was, ids@, e@),
            out@.len() == all.len() - back@.len(),
            forall|i: int|
                0 <= i < back@.len() ==> #[trigger] back@[i] == all[all.len() - 1 - i],
            forall|i: int|
                0 <= i < out@.len() ==> (#[trigger] out@[i]).0@ == want[i].0 && out@[i].1@
                    == want[i].1,
        decreases back@.len(),
    {
        let ghost before = back@;
        if let Some((name, array)) = back.pop() {
            let ghost at = out@.len() as int;
            assert(before[before.len() - 1] == all[at]);
            assert(was[at] == (name@, array@));
            if str_eq(name.as_str(), e.column.as_str()) {
                out.push((name, put_in_rows(array, ids, e.id, &e.value)));
            } else {
                out.push((name, array));
            }
        }
    }
    assert(arrays_view(out@) =~= want);
    out
}

/// Lays pending edits over a batch.
pub fn overlay(b: BatchDesc, edits: &[CellEdit]) -> (r: BatchDesc)
    ensures
        r@ == overlaid(b@, edits_view(edits@)),
{
    match b {
        BatchDesc::Empty { with_id, fields } => BatchDesc::Empty { with_id, fields },
        BatchDesc::Rows { with_id, ids, columns } => {
            let ghost was = arrays_view(columns@);
            let ghost all = edits_view(edits@);
            let mut out: Vec<(String, ArrayDesc)> = columns;
            let mut k: usize = 0;
            while k < edits.len()
                invariant
                    k <= edits@.len(),
                    all == edits_view(edits@),
                    arrays_view(out@) == edited_upto(was, ids@, all, k as int),
                decreases edits@.len() - k,
            {
                assert(all[k as int] == edits@[k as int]@);
                out = edit_columns(out, &ids, &edits[k]);
                k = k + 1;
            }
            BatchDesc::Rows { with_id, ids, columns: out }
        },
    }
}

} // verus!
