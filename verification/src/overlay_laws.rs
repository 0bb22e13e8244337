//! What a batch shows once pending edits are laid over it.

use vstd::prelude::*;

use crate::arrays::{low_half, ArraySeq};
use crate::batch::BatchSeq;
use crate::bytes::signed;
use crate::overlay::{columns_edited, edited_upto, overlaid, put, put_rows, EditSeq, ValueSeq};

verus! {

/// Whether an entry is there.
pub open spec fn is_there(valid: Option<Seq<bool>>, j: int) -> bool {
    match valid {
        None => true,
        Some(b) => b[j],
    }
}

/// What an array shows at an entry.
pub open spec fn entry(a: ArraySeq, j: int) -> ValueSeq {
    match a {
        ArraySeq::Int64 { values, valid } if is_there(valid, j) => ValueSeq::Int(values[j]),
        ArraySeq::Timestamp { values, valid } if is_there(valid, j) => ValueSeq::Int(values[j]),
        ArraySeq::Date { values, valid } if is_there(valid, j) => ValueSeq::Int(values[j] as i64),
        ArraySeq::Float64 { values, valid } if is_there(valid, j) => ValueSeq::Real(values[j]),
        ArraySeq::Bool { values } if values[j] is Some => ValueSeq::Truth(values[j]->0),
        ArraySeq::Utf8 { values, .. } if values[j] is Some => ValueSeq::Text(values[j]->0),
        ArraySeq::Binary { values, .. } if values[j] is Some => ValueSeq::Bytes(values[j]->0),
        _ => ValueSeq::Null,
    }
}

/// Whether marks are those of `n` entries.
pub open spec fn marks_fit(valid: Option<Seq<bool>>, n: int) -> bool {
    valid matches Some(b) ==> b.len() == n
}

/// Whether an array has `n` entries that can be edited.
pub open spec fn editable(a: ArraySeq, n: int) -> bool {
    match a {
        ArraySeq::Int64 { values, valid } => values.len() == n && marks_fit(valid, n),
        ArraySeq::Timestamp { values, valid } => values.len() == n && marks_fit(valid, n),
        ArraySeq::Date { values, valid } => values.len() == n && marks_fit(valid, n),
        ArraySeq::Float64 { values, valid } => values.len() == n && marks_fit(valid, n),
        ArraySeq::Bool { values } => values.len() == n,
        ArraySeq::Utf8 { values, .. } => values.len() == n,
        ArraySeq::Binary { values, .. } => values.len() == n,
        _ => false,
    }
}

/// Whether a value can stand in an array.
pub open spec fn suits(a: ArraySeq, v: ValueSeq) -> bool {
    match a {
        ArraySeq::Int64 { .. } => v is Int || v is Null,
        ArraySeq::Timestamp { .. } => v is Int || v is Null,
        ArraySeq::Date { .. } => v is Int || v is Null,
        ArraySeq::Float64 { .. } => v is Real || v is Null,
        ArraySeq::Bool { .. } => v is Truth || v is Null,
        ArraySeq::Utf8 { .. } => v is Text || v is Null,
        ArraySeq::Binary { .. } => v is Bytes || v is Null,
        _ => false,
    }
}

/// A value as an array shows it: days are cut to their lower half.
pub open spec fn shown(a: ArraySeq, v: ValueSeq) -> ValueSeq {
    match (a, v) {
        (ArraySeq::Date { .. }, ValueSeq::Int(x)) => ValueSeq::Int(low_half(x as int) as i64),
        _ => v,
    }
}

/// Whether two arrays are of one kind.
pub open spec fn alike(a: ArraySeq, b: ArraySeq) -> bool {
    forall|v: ValueSeq| #[trigger] suits(a, v) == suits(b, v) && shown(a, v) == shown(b, v)
}

/// Putting an entry shows the value there and changes no other entry.
proof fn put_shows(a: ArraySeq, n: int, i: int, v: ValueSeq, j: int)
    requires
        editable(a, n),
        0 <= i < n,
        0 <= j < n,
    ensures
        editable(put(a, i, v), n),
        alike(a, put(a, i, v)),
        entry(put(a, i, v), j) == (if i == j && suits(a, v) {
            shown(a, v)
        } else {
            entry(a, j)
        }),
{
}

/// An edit shows its value in the rows with its identifier and changes no other row.
proof fn put_rows_show(a: ArraySeq, ids: Seq<i64>, id: u64, v: ValueSeq, k: int, j: int)
    requires
        editable(a, ids.len() as int),
        0 <= k <= ids.len(),
        0 <= j < ids.len(),
    ensures
        editable(put_rows(a, ids, id, v, k), ids.len() as int),
        alike(a, put_rows(a, ids, id, v, k)),
        entry(put_rows(a, ids, id, v, k), j) == (if j < k && ids[j] == signed(id as int) && suits(
            a,
            v,
        ) {
            shown(a, v)
        } else {
            entry(a, j)
        }),
    decreases k,
{
    if k > 0 {
        put_rows_show(a, ids, id, v, k - 1, j);
        let before = put_rows(a, ids, id, v, k - 1);
        assert(suits(a, v) == suits(before, v));
        put_shows(before, ids.len() as int, k - 1, v, j);
        let after = put_rows(a, ids, id, v, k);
        assert forall|w: ValueSeq| #[trigger] suits(a, w) == suits(after, w) && shown(a, w) == shown(
            after,
            w,
        ) by {
            assert(suits(a, w) == suits(before, w));
        }
    }
}

/// What the last of the first `k` edits puts into a cell, among those whose value suits the array.
pub open spec fn last_edit(
    a: ArraySeq,
    column: Seq<char>,
    id: i64,
    edits: Seq<EditSeq>,
    k: int,
) -> Option<ValueSeq>
    decreases k,
{
    if k <= 0 {
        None
    } else {
        let e = edits[k - 1];
        if e.column == column && id == signed(e.id as int) && suits(a, e.value) {
            Some(shown(a, e.value))
        } else {
            last_edit(a, column, id, edits, k - 1)
        }
    }
}

proof fn edits_show(
    columns: Seq<(Seq<char>, ArraySeq)>,
    ids: Seq<i64>,
    edits: Seq<EditSeq>,
    k: int,
    p: int,
    j: int,
)
    requires
        0 <= k <= edits.len(),
        0 <= p < columns.len(),
        0 <= j < ids.len(),
        editable(columns[p].1, ids.len() as int),
    ensures
        ({
            let (name, a) = columns[p];
            let now = edited_upto(columns, ids, edits, k);
            &&& now.len() == columns.len()
            &&& now[p].0 == name
            &&& editable(now[p].1, ids.len() as int)
            &&& alike(a, now[p].1)
            &&& entry(now[p].1, j) == (match last_edit(a, name, ids[j], edits, k) {
                Some(v) => v,
                None => entry(a, j),
            })
        }),
    decreases k,
{
    if k > 0 {
        edits_show(columns, ids, edits, k - 1, p, j);
        let (name, a) = columns[p];
        let before = edited_upto(columns, ids, edits, k - 1);
        let e = edits[k - 1];
        let now = edited_upto(columns, ids, edits, k);
        assert(now == columns_edited(before, ids, e));
        assert(suits(a, e.value) == suits(before[p].1, e.value));
        put_rows_show(before[p].1, ids, e.id, e.value, ids.len() as int, j);
        assert forall|w: ValueSeq| #[trigger] suits(a, w) == suits(now[p].1, w) && shown(a, w)
            == shown(now[p].1, w) by {
            assert(suits(a, w) == suits(before[p].1, w));
        }
    }
}

/// A batch with pending edits laid over it shows in each cell the last edit of that cell whose value
/// suits the column, and what it showed before where there is none.
pub proof fn law_edits_are_shown(b: BatchSeq, edits: Seq<EditSeq>, p: int, j: int)
    requires
        b matches BatchSeq::Rows { ids, columns, .. } && 0 <= p < columns.len() && 0 <= j
            < ids.len() && editable(columns[p].1, ids.len() as int),
    ensures
        b matches BatchSeq::Rows { with_id, ids, columns } && (overlaid(b, edits) matches BatchSeq::Rows {
            with_id: shows_id,
            ids: same,
            columns: now,
        } && {
            let (name, a) = columns[p];
            &&& shows_id == with_id
            &&& same == ids
            &&& now[p].0 == name
            &&& entry(now[p].1, j) == (match last_edit(
                a,
                name,
                ids[j],
                edits,
                edits.len() as int,
            ) {
                Some(v) => v,
                None => entry(a, j),
            })
        }),
{
    if let BatchSeq::Rows { ids, columns, .. } = b {
        edits_show(columns, ids, edits, edits.len() as int, p, j);
    }
}

} // verus!
