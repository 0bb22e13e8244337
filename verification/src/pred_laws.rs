//! What holds of predicates on one column.

use vstd::prelude::*;

use crate::dict_text::{dict_text, DictTextSeq};
use crate::model::{rows_before, ColumnType, V4Footer};
use crate::multi::{
    equal_rows, index_rows, index_set_rows, length_misses, lengths_miss, member_rows, value_from,
    values_found, view_of, PredSeq, ViewSeq,
};
use crate::numeric::min2;
use crate::scan_laws::group_bounds;
use crate::select::select_checked;
use crate::set_laws::select_holds;
use crate::text::plain_text;

verus! {

/// Whether row `r` of a row group has a string and is neither deleted nor missing.
pub open spec fn has_string(v: ViewSeq, kind: ColumnType, value: Seq<u8>, r: int) -> bool {
    if kind is StringDict {
        match dict_text(v.payload) {
            Ok(Some(d)) if d.size > 0 => match value_from(d, value, 0) {
                Some(Some(k)) => !(v.deletes && v.deleted is None) && r < min2(d.rows, v.rows)
                    && index_rows(d, k + 1, v.gone())(r),
                _ => false,
            },
            _ => false,
        }
    } else if kind is String {
        match plain_text(v.payload) {
            None => false,
            Some(t) => r < min2(t.count, v.rows) && equal_rows(t, value, v.gone(), v.nulls)(r)
                == Some(true),
        }
    } else {
        false
    }
}

/// A selection that can fail holds what was there and what passes.
proof fn checked_holds(
    hit: spec_fn(int) -> Option<bool>,
    n: int,
    base: int,
    acc: Seq<usize>,
    max: int,
    row: usize,
)
    requires
        0 <= n,
        0 <= base,
        base + n <= usize::MAX,
        acc.len() + n <= max,
        select_checked(hit, n, base, acc, max) is Some,
    ensures
        select_checked(hit, n, base, acc, max)->0.len() <= acc.len() + n,
        select_checked(hit, n, base, acc, max)->0.contains(row) == (acc.contains(row) || (base
            <= row < base + n && hit(row - base) == Some(true))),
    decreases n,
{
    if n > 0 {
        checked_holds(hit, n - 1, base, acc, max, row);
        let before = select_checked(hit, n - 1, base, acc, max)->0;
        let all = select_checked(hit, n, base, acc, max)->0;
        if hit(n - 1) == Some(true) {
            let x = (base + n - 1) as usize;
            assert(all == before.push(x));
            if before.contains(row) {
                let k = choose|k: int| 0 <= k < before.len() && before[k] == row;
                assert(all[k] == row);
            }
            assert(all[before.len() as int] == x);
            if all.contains(row) {
                let k = choose|k: int| 0 <= k < all.len() && all[k] == row;
                if k < before.len() {
                    assert(before[k] == row);
                }
            }
        }
    }
}

/// Which values of a dictionary are found for some strings.
pub(crate) proof fn found_facts(d: DictTextSeq, values: Seq<Seq<u8>>, k: int, x: int)
    requires
        0 <= k <= values.len(),
        values_found(d, values, k) is Some,
    ensures
        values_found(d, values, k)->0.contains(x) == (exists|j: int|
            0 <= j < k && value_from(d, #[trigger] values[j], 0) == Some(Some(x))),
    decreases k,
{
    if k > 0 {
        found_facts(d, values, k - 1, x);
        let before = values_found(d, values, k - 1)->0;
        let all = values_found(d, values, k)->0;
        if let Some(Some(y)) = value_from(d, values[k - 1], 0) {
            assert(all == before.push(y));
            assert(all[before.len() as int] == y);
            if before.contains(x) {
                let m = choose|m: int| 0 <= m < before.len() && before[m] == x;
                assert(all[m] == x);
            }
            if all.contains(x) {
                let m = choose|m: int| 0 <= m < all.len() && all[m] == x;
                if m < before.len() {
                    assert(before[m] == x);
                }
            }
        }
        if exists|j: int| 0 <= j < k && value_from(d, #[trigger] values[j], 0) == Some(Some(x)) {
            let j = choose|j: int|
                0 <= j < k && value_from(d, #[trigger] values[j], 0) == Some(Some(x));
            if j < k - 1 {
                assert(value_from(d, values[j], 0) == Some(Some(x)));
            }
        }
    }
}

/// The rows of a row group that have a string.
proof fn string_rows_hold(
    v: ViewSeq,
    kind: ColumnType,
    value: Seq<u8>,
    base: int,
    acc: Seq<usize>,
    row: usize,
)
    requires
        0 <= base,
        0 <= v.rows,
        base + v.rows <= usize::MAX,
        acc.len() + v.rows <= usize::MAX,
        v.string_rows(kind, value, base, acc) is Some,
    ensures
        v.string_rows(kind, value, base, acc)->0.len() <= acc.len() + v.rows,
        v.string_rows(kind, value, base, acc)->0.contains(row) == (acc.contains(row) || (base <= row
            && has_string(v, kind, value, row - base))),
{
    let max = usize::MAX as int;
    if kind is StringDict {
        if let Ok(Some(d)) = dict_text(v.payload) {
            if d.size > 0 {
                if let Some(Some(k)) = value_from(d, value, 0) {
                    let n = min2(d.rows, v.rows);
                    let hit = index_rows(d, k + 1, v.gone());
                    if n >= 0 {
                        select_holds(hit, n, base, acc, max, row);
                    }
                }
            }
        }
    } else if kind is String {
        if let Some(t) = plain_text(v.payload) {
            let n = min2(t.count, v.rows);
            checked_holds(equal_rows(t, value, v.gone(), v.nulls), n, base, acc, max, row);
        }
    }
}

/// The rows of a row group that have one of some strings.
proof fn set_rows_hold(
    v: ViewSeq,
    kind: ColumnType,
    values: Seq<Seq<u8>>,
    base: int,
    acc: Seq<usize>,
    row: usize,
)
    requires
        0 <= base,
        0 <= v.rows,
        base + v.rows <= usize::MAX,
        acc.len() + v.rows <= usize::MAX,
        v.set_rows(kind, values, base, acc) is Some,
    ensures
        v.set_rows(kind, values, base, acc)->0.len() <= acc.len() + v.rows,
        v.set_rows(kind, values, base, acc)->0.contains(row) == (acc.contains(row) || (base <= row
            && exists|j: int|
            0 <= j < values.len() && has_string(v, kind, #[trigger] values[j], row - base))),
{
    let max = usize::MAX as int;
    let r = row - base;
    if kind is StringDict {
        if let Ok(Some(d)) = dict_text(v.payload) {
            if d.size > 0 {
                let found = values_found(d, values, values.len() as int)->0;
                let n = min2(d.rows, v.rows);
                let hit = index_set_rows(d, found, v.gone());
                found_facts(d, values, values.len() as int, d.index(r) - 1);
                if !(v.deletes && v.deleted is None) && n >= 0 {
                    select_holds(hit, n, base, acc, max, row);
                }
                if found.contains(d.index(r) - 1) {
                    let j = choose|j: int|
                        0 <= j < values.len() && value_from(d, #[trigger] values[j], 0) == Some(
                            Some(d.index(r) - 1),
                        );
                    assert(value_from(d, values[j], 0) == Some(Some(d.index(r) - 1)));
                    assert(has_string(v, kind, values[j], r) == (!(v.deletes && v.deleted is None)
                        && r < n && hit(r)));
                }
            }
        }
    } else if kind is String {
        if let Some(t) = plain_text(v.payload) {
            let n = min2(t.count, v.rows);
            let hit = member_rows(t, values, v.gone(), v.nulls);
            checked_holds(hit, n, base, acc, max, row);
            if hit(r) == Some(true) {
                let s = t.rest.subrange(t.start(r), t.end(r));
                let j = choose|j: int| 0 <= j < values.len() && values[j] == s;
                assert(equal_rows(t, values[j], v.gone(), v.nulls)(r) == Some(true));
            }
            assert forall|j: int|
                0 <= j < values.len() && has_string(v, kind, #[trigger] values[j], r) implies hit(r)
                == Some(true) by {
                assert(values.contains(values[j]));
            }
        }
    }
}

/// Whether the lengths on record rule a string out of row group `i` only where no row has it.
pub open spec fn lengths_true(f: V4Footer, file: Seq<u8>, col: int, value: Seq<u8>, i: int) -> bool {
    length_misses(f.zone(i, col, false), value.len() as int) ==> (view_of(f, file, col, i) matches Some(
        v,
    ) ==> forall|r: int| 0 <= r ==> !#[trigger] has_string(v, f.schema.kind(col), value, r))
}

/// The predicate that a string is one of a set.
pub open spec fn one_of(col: Seq<char>, values: Seq<Seq<u8>>) -> PredSeq {
    PredSeq::StringIn { col, values }
}

/// The predicate that a string equals another.
pub open spec fn equals(col: Seq<char>, value: Seq<u8>) -> PredSeq {
    PredSeq::StringEq { col, value }
}

proof fn view_rows(f: V4Footer, file: Seq<u8>, col: int, i: int)
    ensures
        view_of(f, file, col, i) matches Some(v) ==> v.rows == f.row_groups@[i].row_count,
{
}

/// A scan for a set of strings finds the rows that a scan for one of them finds.
proof fn scan_is_union(
    f: V4Footer,
    file: Seq<u8>,
    name: Seq<char>,
    values: Seq<Seq<u8>>,
    col: int,
    k: int,
    row: usize,
)
    requires
        f.wf(),
        0 <= k <= f.row_groups@.len(),
        one_of(name, values).scan(f, file, col, k) is Some,
        forall|j: int|
            0 <= j < values.len() ==> equals(name, #[trigger] values[j]).scan(f, file, col, k) is Some,
        forall|j: int, i: int|
            0 <= j < values.len() && 0 <= i < k ==> #[trigger] lengths_true(
                f,
                file,
                col,
                values[j],
                i,
            ),
    ensures
        one_of(name, values).scan(f, file, col, k)->0.len() <= rows_before(f.row_groups@, k),
        forall|j: int|
            0 <= j < values.len() ==> equals(name, #[trigger] values[j]).scan(
                f,
                file,
                col,
                k,
            )->0.len() <= rows_before(f.row_groups@, k),
        one_of(name, values).scan(f, file, col, k)->0.contains(row) == (exists|j: int|
            0 <= j < values.len() && equals(name, #[trigger] values[j]).scan(
                f,
                file,
                col,
                k,
            )->0.contains(row)),
    decreases k,
{
    if k > 0 {
        let i = k - 1;
        group_bounds(f, i);
        assert forall|j: int| 0 <= j < values.len() implies equals(name, #[trigger] values[j]).scan(
            f,
            file,
            col,
            i,
        ) is Some by {
            assert(equals(name, values[j]).scan(f, file, col, k) is Some);
        }
        scan_is_union(f, file, name, values, col, i, row);
        let kind = f.schema.kind(col);
        let base = rows_before(f.row_groups@, i);
        let rows = f.row_groups@[i].row_count as int;
        let z = f.zone(i, col, false);
        let acc = one_of(name, values).scan(f, file, col, i)->0;
        let view = view_of(f, file, col, i);
        view_rows(f, file, col, i);
        let looked = rows > 0 && view is Some;
        let here = |j: int| looked && base <= row && has_string(view->0, kind, values[j], row - base);
        assert forall|j: int| 0 <= j < values.len() implies {
            let one = equals(name, #[trigger] values[j]).scan(f, file, col, k)->0;
            let before = equals(name, values[j]).scan(f, file, col, i)->0;
            &&& one.len() <= rows_before(f.row_groups@, k)
            &&& one.contains(row) == (before.contains(row) || here(j))
        } by {
            let before = equals(name, values[j]).scan(f, file, col, i)->0;
            assert(equals(name, values[j]).scan(f, file, col, k) is Some);
            assert(lengths_true(f, file, col, values[j], i));
            if looked && !length_misses(z, values[j].len() as int) {
                string_rows_hold(view->0, kind, values[j], base, before, row);
            }
        }
        if looked && !lengths_miss(z, values) {
            set_rows_hold(view->0, kind, values, base, acc, row);
        }
        if looked && lengths_miss(z, values) {
            assert forall|j: int| 0 <= j < values.len() implies !#[trigger] here(j) by {
                assert(values[j].len() < z->0.min_bits || values[j].len() > z->0.max_bits);
                assert(lengths_true(f, file, col, values[j], i));
            }
        }
        let whole = one_of(name, values).scan(f, file, col, k)->0;
        if whole.contains(row) {
            if acc.contains(row) {
                let j = choose|j: int|
                    0 <= j < values.len() && equals(name, #[trigger] values[j]).scan(
                        f,
                        file,
                        col,
                        i,
                    )->0.contains(row);
                assert(equals(name, values[j]).scan(f, file, col, k)->0.contains(row));
            } else {
                let j = choose|j: int|
                    0 <= j < values.len() && has_string(
                        view->0,
                        kind,
                        #[trigger] values[j],
                        row - base,
                    );
                assert(here(j));
                assert(equals(name, values[j]).scan(f, file, col, k)->0.contains(row));
            }
        }
        if exists|j: int|
            0 <= j < values.len() && equals(name, #[trigger] values[j]).scan(
                f,
                file,
                col,
                k,
            )->0.contains(row) {
            let j = choose|j: int|
                0 <= j < values.len() && equals(name, #[trigger] values[j]).scan(
                    f,
                    file,
                    col,
                    k,
                )->0.contains(row);
            if equals(name, values[j]).scan(f, file, col, i)->0.contains(row) {
                assert(acc.contains(row));
            } else {
                assert(here(j));
                assert(has_string(view->0, kind, values[j], row - base));
            }
        }
    }
}

/// A row matches a set of strings exactly if it matches one of the strings. All strings can be read,
/// and the lengths on record are true.
pub proof fn law_set_is_any_string(
    f: V4Footer,
    file: Seq<u8>,
    name: Seq<char>,
    values: Seq<Seq<u8>>,
    row: usize,
)
    requires
        f.wf(),
        one_of(name, values).matched(f, file) is Some,
        forall|j: int|
            0 <= j < values.len() ==> equals(name, #[trigger] values[j]).matched(f, file) is Some,
        f.schema.index_of(name) matches Some(col) ==> forall|j: int, i: int|
            0 <= j < values.len() && 0 <= i < f.row_groups@.len() ==> #[trigger] lengths_true(
                f,
                file,
                col as int,
                values[j],
                i,
            ),
    ensures
        one_of(name, values).matched(f, file)->0.contains(row) == (exists|j: int|
            0 <= j < values.len() && equals(name, #[trigger] values[j]).matched(
                f,
                file,
            )->0.contains(row)),
{
    if let Some(col) = f.schema.index_of(name) {
        let n = f.row_groups@.len() as int;
        assert forall|j: int| 0 <= j < values.len() implies equals(name, #[trigger] values[j]).scan(
            f,
            file,
            col as int,
            n,
        ) == equals(name, values[j]).matched(f, file) by {}
        assert forall|j: int| 0 <= j < values.len() implies equals(name, #[trigger] values[j]).scan(
            f,
            file,
            col as int,
            n,
        ) is Some by {
            assert(equals(name, values[j]).matched(f, file) is Some);
        }
        scan_is_union(f, file, name, values, col as int, n, row);
    }
}

} // verus!
