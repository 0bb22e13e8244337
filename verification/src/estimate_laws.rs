//! An estimate adds up the live rows of the row groups that a range can match.

use vstd::prelude::*;

use crate::codec::ColumnCodec;
use crate::double::{at_least, at_most, is_nan, le, law_ceil, law_floor, F64};
use crate::meaning::lists;
use crate::model::{rows_before, RowGroupMeta, V4Footer, ZoneMap};
use crate::numeric::range_test;
use crate::pick_laws::{lists_step, same_list};
use crate::range_ids::estimate;
use crate::scan_laws::group_bounds;
use crate::storage::OnDemandStorage;

verus! {

/// Whether the numbers between the bounds of a zone map reach into a range: the largest is not below
/// it, and the smallest not above it. Without a zone map they may.
pub open spec fn reaches_into(low: F64, high: F64, z: Option<ZoneMap>) -> bool {
    match z {
        None => true,
        Some(m) => if m.is_float {
            le(low, m.high()) && le(m.low(), high)
        } else {
            at_most(low, m.max_bits as int) && at_least(high, m.min_bits as int)
        },
    }
}

/// The rows of a row group that are not deleted.
pub open spec fn left_over(meta: RowGroupMeta) -> int {
    if meta.deletion_count < meta.row_count {
        meta.row_count - meta.deletion_count
    } else {
        0
    }
}

/// The rows of some row groups that are not deleted.
pub open spec fn left_in(f: V4Footer, groups: Seq<usize>) -> int
    decreases groups.len(),
{
    if groups.len() == 0 {
        0
    } else {
        left_in(f, groups.drop_last()) + left_over(f.row_groups@[groups.last() as int])
    }
}

/// Whether the bounds of a range can be compared with integers.
pub open spec fn comparable_range(low: F64, high: F64) -> bool {
    !is_nan(low.bits) && !is_nan(high.bits) && at_most(low, i64::MAX as int) && at_least(
        high,
        i64::MIN as int,
    )
}

/// A zone map rules a row group out where its numbers do not reach into the range.
pub proof fn law_zone_rules_out(low: F64, high: F64, z: Option<ZoneMap>)
    requires
        comparable_range(low, high),
    ensures
        range_test(low, high).misses(z) == !reaches_into(low, high, z),
{
    if let Some(m) = z {
        if !m.is_float {
            law_ceil(low, m.max_bits as int);
            law_floor(high, m.min_bits as int);
        }
    }
}

proof fn estimate_adds(
    f: V4Footer,
    col: int,
    low: F64,
    high: F64,
    k: int,
    kind: spec_fn(int) -> bool,
    any: spec_fn(int) -> bool,
) -> (r: (Seq<usize>, Seq<usize>))
    requires
        f.wf(),
        comparable_range(low, high),
        0 <= k <= f.row_groups@.len() <= u32::MAX,
        forall|i: int|
            0 <= i < k ==> #[trigger] kind(i) == (reaches_into(low, high, f.zone(i, col, false))
                && left_over(f.row_groups@[i]) > 0),
        forall|i: int| 0 <= i < k ==> #[trigger] any(i),
    ensures
        lists(r.0, k, kind),
        lists(r.1, k, any),
        r.0.len() <= k,
        ({
            let e = estimate(f, col, range_test(low, high), k);
            &&& e.matching == left_in(f, r.0)
            &&& e.total == left_in(f, r.1)
            &&& e.groups == r.0.len()
            &&& 0 <= e.matching <= e.total <= rows_before(f.row_groups@, k)
            &&& e.seen == exists|i: int| 0 <= i < k && (#[trigger] f.zone(i, col, false)) is Some
        }),
    decreases k,
{
    if k == 0 {
        (Seq::empty(), Seq::empty())
    } else {
        let i = k - 1;
        let (hits, all) = estimate_adds(f, col, low, high, i, kind, any);
        group_bounds(f, i);
        law_zone_rules_out(low, high, f.zone(i, col, false));
        assert(kind(i) == (reaches_into(low, high, f.zone(i, col, false)) && left_over(
            f.row_groups@[i],
        ) > 0));
        assert(any(i));
        let now = if kind(i) {
            hits.push(i as usize)
        } else {
            hits
        };
        lists_step(hits, now, i, kind);
        lists_step(all, all.push(i as usize), i, any);
        assert(all.push(i as usize).drop_last() =~= all);
        assert(hits.push(i as usize).drop_last() =~= hits);
        (now, all.push(i as usize))
    }
}

impl<C: ColumnCodec> OnDemandStorage<C> {
    /// An estimate tells how many rows that are not deleted the row groups have whose numbers reach into
    /// a range, of how many in all, and how many those row groups are, of how many. There is none where
    /// no row group has a zone map of the column.
    pub proof fn law_estimate_of_groups(
        self,
        col_name: Seq<char>,
        low: F64,
        high: F64,
        hits: Seq<usize>,
        all: Seq<usize>,
    )
        requires
            self.wf(),
            comparable_range(low, high),
            self.footer matches Some(f) && f.schema.index_of(col_name) matches Some(col) && {
                let n = f.row_groups@.len() as int;
                &&& n <= u32::MAX
                &&& lists(
                    hits,
                    n,
                    |i: int|
                        reaches_into(low, high, f.zone(i, col as int, false)) && left_over(
                            f.row_groups@[i],
                        ) > 0,
                )
                &&& lists(all, n, |i: int| true)
            },
        ensures
            ({
                let f = self.footer->0;
                let col = f.schema.index_of(col_name)->0 as int;
                let n = f.row_groups@.len() as int;
                match self.zone_estimate(col_name, low, high) {
                    None => forall|i: int|
                        0 <= i < n ==> (#[trigger] f.zone(i, col, false)) is None,
                    Some((matching, total, groups, of)) => {
                        &&& exists|i: int| 0 <= i < n && (#[trigger] f.zone(i, col, false)) is Some
                        &&& matching == left_in(f, hits)
                        &&& total == left_in(f, all)
                        &&& groups == hits.len()
                        &&& of == n
                    },
                }
            }),
    {
        let f = self.footer->0;
        let col = f.schema.index_of(col_name)->0 as int;
        let n = f.row_groups@.len() as int;
        let kind = |i: int|
            reaches_into(low, high, f.zone(i, col, false)) && left_over(f.row_groups@[i]) > 0;
        let any = |i: int| true;
        let (a, b) = estimate_adds(f, col, low, high, n, kind, any);
        same_list(a, hits, n, kind);
        same_list(b, all, n, any);
    }
}

} // verus!
