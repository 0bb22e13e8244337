//! A scan for a truth value gives the rows whose bit where the column starts is that value.

use vstd::prelude::*;

use crate::bools::{all_placed, bit_rows, bit_scan};
use crate::bytes::bitmap_len;
use crate::codec::ColumnCodec;
use crate::group::{stored_group, tail, window};
use crate::meaning::{flag, holder, lists, marks_len, place_in};
use crate::model::{rows_before, ScanError, V4Footer};
use crate::numeric::min2;
use crate::pick_laws::{in_each_group, lists_grow, same_list, up_to};
use crate::scan_laws::{group_bounds, law_select_limit};
use crate::storage::{max_rows, OnDemandStorage};

verus! {

/// Whether row `r` of row group `i` counts: its bit where the column starts is the one looked for, and
/// where the row group counts deletions its bit at the start of the body is not set.
pub open spec fn bit_counts(f: V4Footer, file: Seq<u8>, col: int, target: bool, i: int, r: int) -> bool {
    let body = f.row_groups@[i].offset + 32;
    &&& flag(file, body + f.rcix(i, col)->0, r) == target
    &&& !(f.row_groups@[i].deletion_count > 0 && flag(file, body, r))
}

/// Whether row group `i` lies in the file, with a bit for each row where the column starts.
pub open spec fn bits_there(f: V4Footer, file: Seq<u8>, col: int, i: int) -> bool {
    let meta = f.row_groups@[i];
    &&& meta.offset + meta.data_size <= file.len()
    &&& f.rcix(i, col) matches Some(o) && 0 <= o && 32 + o + marks_len(meta.row_count as int)
        <= meta.data_size
}

proof fn bits_listed(
    f: V4Footer,
    file: Seq<u8>,
    col: int,
    target: bool,
    k: int,
    kind: spec_fn(int) -> bool,
)
    requires
        f.wf(),
        0 <= k <= f.row_groups@.len(),
        forall|i: int| 0 <= i < k ==> #[trigger] bits_there(f, file, col, i),
        forall|i: int, r: int|
            0 <= i < k && 0 <= r < f.row_groups@[i].row_count ==> kind(
                rows_before(f.row_groups@, i) + r,
            ) == #[trigger] bit_counts(f, file, col, target, i, r),
    ensures
        lists(
            bit_scan(f, file, col, target, usize::MAX as int, k),
            rows_before(f.row_groups@, k),
            kind,
        ),
        bit_scan(f, file, col, target, usize::MAX as int, k).len() <= rows_before(f.row_groups@, k),
    decreases k,
{
    if k > 0 {
        let i = k - 1;
        bits_listed(f, file, col, target, i, kind);
        group_bounds(f, i);
        assert(bits_there(f, file, col, i));
        let meta = f.row_groups@[i];
        let rows = meta.row_count as int;
        let base = rows_before(f.row_groups@, i);
        let s = stored_group(meta, file)->Ok_0;
        let body = tail(s, 32);
        let o = f.rcix(i, col)->0;
        assert(bitmap_len(rows) == marks_len(rows));
        let values = window(body, o, bitmap_len(rows))->0;
        let hit = bit_rows(body, values, meta.deletion_count > 0, target);
        assert forall|r: int| 0 <= r < rows implies #[trigger] hit(r) == kind(base + r) by {
            assert(bit_counts(f, file, col, target, i, r) == kind(base + r));
            assert(0 <= r / 8 < marks_len(rows));
            assert(values[r / 8] == file[meta.offset + 32 + o + r / 8]);
            assert(body[r / 8] == file[meta.offset + 32 + r / 8]);
        }
        lists_grow(
            hit,
            rows,
            base,
            bit_scan(f, file, col, target, usize::MAX as int, i),
            usize::MAX as int,
            kind,
        );
    }
}

proof fn bits_limited(f: V4Footer, file: Seq<u8>, col: int, target: bool, m: int, k: int)
    requires
        0 <= m <= usize::MAX,
    ensures
        ({
            let all = bit_scan(f, file, col, target, usize::MAX as int, k);
            bit_scan(f, file, col, target, m, k) == all.take(min2(all.len() as int, m))
        }),
    decreases k,
{
    if k > 0 {
        bits_limited(f, file, col, target, m, k - 1);
        let acc = bit_scan(f, file, col, target, usize::MAX as int, k - 1);
        let meta = f.row_groups@[k - 1];
        if let Ok(s) = stored_group(meta, file) {
            if let Some(o) = f.rcix(k - 1, col) {
                let body = tail(s, 32);
                if let Some(values) = window(body, o, bitmap_len(meta.row_count as int)) {
                    law_select_limit(
                        bit_rows(body, values, meta.deletion_count > 0, target),
                        meta.row_count as int,
                        rows_before(f.row_groups@, k - 1),
                        acc,
                        usize::MAX as int,
                        m,
                    );
                }
            }
        }
    } else {
        assert(Seq::<usize>::empty().take(0) =~= Seq::empty());
    }
}

impl<C: ColumnCodec> OnDemandStorage<C> {
    /// A scan for a truth value gives the rows that count: all of them, no others, each once, in order;
    /// with a limit, the first of these.
    pub proof fn law_bits_lists(
        self,
        col_name: Seq<char>,
        target: bool,
        limit: Option<usize>,
        all: Seq<usize>,
    )
        requires
            self.wf(),
            self.footer matches Some(f) && self.file matches Some(file) && f.schema.index_of(
                col_name,
            ) matches Some(col) && {
                &&& f.schema.kind(col as int) is Bool
                &&& forall|i: int|
                    0 <= i < f.row_groups@.len() ==> #[trigger] bits_there(f, file@, col as int, i)
                &&& lists(
                    all,
                    f.total_rows(),
                    |row: int|
                        bit_counts(f, file@, col as int, target, holder(f, row), place_in(f, row)),
                )
            },
        ensures
            self.bool_filter(col_name, target, limit) == Ok::<Option<Seq<usize>>, ScanError>(
                Some(up_to(all, limit)),
            ),
    {
        let f = self.footer->0;
        let file = self.file->0@;
        let col = f.schema.index_of(col_name)->0 as int;
        let n = f.row_groups@.len() as int;
        let kind = |row: int| bit_counts(f, file, col, target, holder(f, row), place_in(f, row));
        assert forall|i: int, r: int| 0 <= i < n && 0 <= r < f.row_groups@[i].row_count implies kind(
            rows_before(f.row_groups@, i) + r,
        ) == #[trigger] bit_counts(f, file, col, target, i, r) by {
            in_each_group(f, i, r);
        }
        bits_listed(f, file, col, target, n, kind);
        let found = bit_scan(f, file, col, target, usize::MAX as int, n);
        same_list(found, all, f.total_rows(), kind);
        bits_limited(f, file, col, target, max_rows(limit), n);
        if n == 1 {
            assert(bits_there(f, file, col, 0));
        }
        assert(all_placed(f, col)) by {
            assert forall|i: int| 0 <= i < n implies (#[trigger] f.rcix(i, col)) is Some by {
                assert(bits_there(f, file, col, i));
            }
        }
        assert(up_to(all, limit) =~= all.take(min2(all.len() as int, max_rows(limit))));
    }
}

} // verus!
