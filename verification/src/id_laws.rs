//! What holds of identifiers and of the rows that have them.

use vstd::prelude::*;

use crate::by_id::{live_row, local_row};
use crate::bytes::{bit, u64_le};
use crate::group::{id_at, id_section, stored_group, tail};
use crate::ids::{bisect_ids, ids_upto, live_in};
use crate::model::{RowGroupMeta, ScanError, RG_IDS_IMPLICIT_CONTIGUOUS};

verus! {

/// Whether the words `left..right` ascend.
pub open spec fn words_ascend(s: Seq<u8>, left: int, right: int) -> bool {
    forall|i: int, j: int|
        left <= i < j < right ==> #[trigger] u64_le(s, i * 8) < #[trigger] u64_le(s, j * 8)
}

/// What bisection finds is there.
pub proof fn law_found_is_there(s: Seq<u8>, left: int, right: int, id: u64)
    requires
        0 <= left,
    ensures
        bisect_ids(s, left, right, id) matches Some(k) ==> left <= k < right && u64_le(s, k * 8)
            == id,
    decreases right - left,
{
    if left < right {
        let mid = left + (right - left) / 2;
        law_found_is_there(s, mid + 1, right, id);
        law_found_is_there(s, left, mid, id);
    }
}

/// Among ascending identifiers bisection finds every one at its place.
pub proof fn law_there_is_found(s: Seq<u8>, left: int, right: int, id: u64, k: int)
    requires
        0 <= left <= k < right,
        u64_le(s, k * 8) == id,
        words_ascend(s, left, right),
    ensures
        bisect_ids(s, left, right, id) == Some(k),
    decreases right - left,
{
    let mid = left + (right - left) / 2;
    let v = u64_le(s, mid * 8);
    if mid < k {
        law_there_is_found(s, mid + 1, right, id, k);
    } else if mid > k {
        law_there_is_found(s, left, mid, id, k);
    }
}

/// The row that is found for an identifier has it. All identifiers lie in the row group.
pub proof fn law_row_has_id(meta: RowGroupMeta, body: Seq<u8>, ids: u8, id: u64)
    requires
        meta.min_id <= id,
        id_section(meta.row_count as int, ids) <= body.len(),
    ensures
        local_row(meta, body, ids, id) matches Some(row) ==> 0 <= row < meta.row_count && id_at(
            body,
            meta.min_id,
            ids,
            row,
        ) == Some(id as int),
        live_row(meta, body, ids, id) matches Some(row) ==> local_row(meta, body, ids, id) == Some(
            row,
        ) && !bit(tail(body, id_section(meta.row_count as int, ids)), row),
{
    law_found_is_there(body, 0, meta.row_count as int, id);
}

/// In a row group with ascending identifiers every identifier is found at its row.
pub proof fn law_id_has_row(meta: RowGroupMeta, body: Seq<u8>, ids: u8, row: int)
    requires
        0 <= row < meta.row_count,
        id_section(meta.row_count as int, ids) <= body.len(),
        ids != RG_IDS_IMPLICIT_CONTIGUOUS ==> words_ascend(body, 0, meta.row_count as int),
        id_at(body, meta.min_id, ids, row) is Some,
        meta.min_id <= id_at(body, meta.min_id, ids, row)->0,
    ensures
        local_row(meta, body, ids, id_at(body, meta.min_id, ids, row)->0 as u64) == Some(row),
{
    let id = id_at(body, meta.min_id, ids, row)->0 as u64;
    if ids != RG_IDS_IMPLICIT_CONTIGUOUS {
        law_there_is_found(body, 0, meta.row_count as int, id, row);
        let guess = id - meta.min_id;
        if guess < meta.row_count && u64_le(body, guess * 8) == id {
            if guess < row {
                assert(u64_le(body, guess * 8) < u64_le(body, row * 8));
            } else if row < guess {
                assert(u64_le(body, row * 8) < u64_le(body, guess * 8));
            }
        }
    }
}

/// An identifier that is reported as live can be read: a live row has it.
pub proof fn law_live_is_readable(meta: RowGroupMeta, file: Seq<u8>, id: u64)
    requires
        meta.min_id <= id,
        live_in(meta, file, id) == Ok::<Option<bool>, ScanError>(Some(true)),
    ensures
        ({
            let s = stored_group(meta, file)->Ok_0;
            live_row(meta, tail(s, 32), s[30], id) is Some
        }),
{
}

/// Loaded identifiers are those of the rows, in the order of the rows.
pub proof fn law_loaded_ids(body: Seq<u8>, min_id: u64, ids: u8, k: int, i: int)
    requires
        0 <= i < k,
        ids_upto(body, min_id, ids, k).1,
    ensures
        ids_upto(body, min_id, ids, k).0.len() == k,
        id_at(body, min_id, ids, i) == Some(ids_upto(body, min_id, ids, k).0[i] as int),
    decreases k,
{
    loaded_len(body, min_id, ids, k - 1);
    if i < k - 1 {
        law_loaded_ids(body, min_id, ids, k - 1, i);
    }
}

proof fn loaded_len(body: Seq<u8>, min_id: u64, ids: u8, k: int)
    requires
        0 <= k,
        ids_upto(body, min_id, ids, k).1,
    ensures
        ids_upto(body, min_id, ids, k).0.len() == k,
    decreases k,
{
    if k > 0 {
        loaded_len(body, min_id, ids, k - 1);
    }
}

} // verus!
