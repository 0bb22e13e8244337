//! Scans of the bits at the start of columns of truth values.

use vstd::prelude::*;

use crate::bytes::{bit, bitmap_len, test_bit};
use crate::codec::ColumnCodec;
use crate::group::{get_stored, get_tail, get_window, rg_bitmap_len, stored_group, tail, window};
use crate::model::{rows_before, rows_before_monotonic, ColumnType, RowGroupMeta, ScanError, V4Footer};
use crate::select::{select, select_rows};
use crate::storage::{max_rows, rows_view, OnDemandStorage};

verus! {

/// The rows whose bit in `values` is `target`. Where a row group counts deletions, the rows are left
/// out whose bits are set at the very start of the body: in its identifiers, or in the deletion
/// bitmap where identifiers are not written out.
pub open spec fn bit_rows(body: Seq<u8>, values: Seq<u8>, deletes: bool, target: bool) -> spec_fn(
    int,
) -> bool {
    |i: int| !(deletes && bit(body, i)) && bit(values, i) == target
}

/// `acc` with the rows of row group `i` whose bit is `target`. The bits are those that stand where
/// the column starts: its bitmap of missing rows, which comes before the truth values themselves. A
/// row group where they do not fit has no such rows.
pub open spec fn bit_group(
    f: V4Footer,
    file: Seq<u8>,
    col: int,
    target: bool,
    i: int,
    acc: Seq<usize>,
    max: int,
) -> Seq<usize> {
    let meta = f.row_groups@[i];
    match (stored_group(meta, file), f.rcix(i, col)) {
        (Ok(s), Some(o)) => {
            let body = tail(s, 32);
            match window(body, o, bitmap_len(meta.row_count as int)) {
                None => acc,
                Some(values) => select(
                    bit_rows(body, values, meta.deletion_count > 0, target),
                    meta.row_count as int,
                    rows_before(f.row_groups@, i),
                    acc,
                    max,
                ),
            }
        },
        _ => acc,
    }
}

/// The rows of the first `k` row groups whose bit is `target`.
pub open spec fn bit_scan(f: V4Footer, file: Seq<u8>, col: int, target: bool, max: int, k: int) -> Seq<
    usize,
>
    decreases k,
{
    if k <= 0 {
        Seq::empty()
    } else {
        bit_group(f, file, col, target, k - 1, bit_scan(f, file, col, target, max, k - 1), max)
    }
}

fn add_bit_group(
    f: &V4Footer,
    file: &[u8],
    col: usize,
    target: bool,
    i: usize,
    base: usize,
    acc: &mut Vec<usize>,
    max: usize,
)
    requires
        i < f.row_groups@.len(),
        base == rows_before(f.row_groups@, i as int),
        base + f.row_groups@[i as int].row_count <= usize::MAX,
    ensures
        final(acc)@ == bit_group(*f, file@, col as int, target, i as int, old(acc)@, max as int),
{
    let meta: RowGroupMeta = f.row_groups[i];
    match (get_stored(&meta, file), f.column_offset(i, col)) {
        (Ok(s), Some(o)) => {
            let body: &[u8] = get_tail(s, 32);
            match get_window(body, o as u64, rg_bitmap_len(meta.row_count)) {
                None => {},
                Some(values) => {
                    let deletes: bool = meta.deletion_count > 0;
                    let ghost hit = bit_rows(body@, values@, deletes, target);
                    let n: usize = meta.row_count as usize;
                    let g = |r: usize| -> (b: bool)
                        requires
                            r < n,
                        ensures
                            b == hit(r as int),
                        { !(deletes && test_bit(body, r)) && test_bit(values, r) == target };
                    select_rows(g, Ghost(hit), n, base, acc, max);
                },
            }
        },
        _ => {},
    }
}

/// Whether every row group has the place of the column on record.
pub open spec fn all_placed(f: V4Footer, col: int) -> bool {
    forall|i: int| 0 <= i < f.row_groups@.len() ==> (#[trigger] f.rcix(i, col)) is Some
}

/// Tests whether every row group has the place of the column on record.
pub fn are_all_placed(f: &V4Footer, col: usize) -> (r: bool)
    ensures
        r == all_placed(*f, col as int),
{
    let mut i: usize = 0;
    while i < f.row_groups.len()
        invariant
            i <= f.row_groups@.len(),
            forall|k: int| 0 <= k < i ==> (#[trigger] f.rcix(k, col as int)) is Some,
        decreases f.row_groups@.len() - i,
    {
        if f.column_offset(i, col).is_none() {
            assert(f.rcix(i as int, col as int) is None);
            return false;
        }
        i = i + 1;
    }
    true
}

impl<C: ColumnCodec> OnDemandStorage<C> {
    /// What a scan for a truth value gives: the rows whose bit at the place of the column is
    /// `target`.
    pub open spec fn bool_filter(self, col_name: Seq<char>, target: bool, limit: Option<usize>) -> Result<
        Option<Seq<usize>>,
        ScanError,
    > {
        match self.footer {
            None => Ok(None),
            Some(f) => match f.schema.index_of(col_name) {
                None => Ok(None),
                Some(col) => if !(f.schema.kind(col as int) is Bool) {
                    Ok(None)
                } else {
                    match self.file {
                        None => Err(ScanError::NotOpen),
                        Some(file) => {
                            let n = f.row_groups@.len();
                            let short = n == 1 && max_rows(limit) > 0
                                && f.row_groups@[0].row_count > 0 && f.row_groups@[0].offset
                                + f.row_groups@[0].data_size <= file@.len()
                                && f.row_groups@[0].data_size < 32;
                            if short || (n > 1 && !all_placed(f, col as int)) {
                                Err(ScanError::Corrupt)
                            } else {
                                Ok(
                                    Some(
                                        bit_scan(
                                            f,
                                            file@,
                                            col as int,
                                            target,
                                            max_rows(limit),
                                            n as int,
                                        ),
                                    ),
                                )
                            }
                        },
                    }
                },
            },
        }
    }

    /// Finds, up to a limit, the rows whose bit is `target_value` among those that stand where the
    /// column starts. That is its bitmap of missing rows: the truth values, which follow it, are not
    /// looked at. Where a row group counts deletions, a row is left out whose bit is set at the very
    /// start of the body: in the identifiers, or in the deletion bitmap where identifiers are not
    /// written out.
    pub fn scan_bool_filter_mmap(&self, col_name: &str, target_value: bool, limit: Option<usize>) -> (r:
        Result<Option<Vec<usize>>, ScanError>)
        requires
            self.wf(),
        ensures
            rows_view(r) == self.bool_filter(col_name@, target_value, limit),
    {
        let f: &V4Footer = match &self.footer {
            None => {
                return Ok(None);
            },
            Some(f) => f,
        };
        let col: usize = match f.schema.get_index(col_name) {
            None => {
                return Ok(None);
            },
            Some(i) => i,
        };
        if !matches!(f.schema.columns[col].1, ColumnType::Bool) {
            return Ok(None);
        }
        let file: &[u8] = match &self.file {
            None => {
                return Err(ScanError::NotOpen);
            },
            Some(v) => v.as_slice(),
        };
        let max: usize = match limit {
            None => usize::MAX,
            Some(n) => n,
        };
        if f.row_groups.len() > 1 {
            if !are_all_placed(f, col) {
                return Err(ScanError::Corrupt);
            }
        } else if f.row_groups.len() == 1 && max > 0 {
            let meta: RowGroupMeta = f.row_groups[0];
            if meta.row_count > 0 && meta.offset as u128 + meta.data_size as u128
                <= file.len() as u128 && meta.data_size < 32 {
                return Err(ScanError::Corrupt);
            }
        }
        let mut acc: Vec<usize> = Vec::new();
        let mut base: usize = 0;
        let mut i: usize = 0;
        while i < f.row_groups.len()
            invariant
                i <= f.row_groups@.len(),
                f.wf(),
                base == rows_before(f.row_groups@, i as int),
                acc@ == bit_scan(*f, file@, col as int, target_value, max as int, i as int),
            decreases f.row_groups@.len() - i,
        {
            proof {
                rows_before_monotonic(f.row_groups@, i + 1, f.row_groups@.len() as int);
            }
            add_bit_group(f, file, col, target_value, i, base, &mut acc, max);
            base = base + f.row_groups[i].row_count as usize;
            i = i + 1;
        }
        Ok(Some(acc))
    }
}

} // verus!
